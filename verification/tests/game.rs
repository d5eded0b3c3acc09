use alloy_sol_types::{sol_data, SolType};
use blackjack_core::game::{BlackjackStateMachine, Error};
use blackjack_core::wire::WireAction;
use k256::ecdsa::signature::Signer;
use k256::ecdsa::{Signature, SigningKey, VerifyingKey};

type ActionTuple = (
    sol_data::Uint<8>,
    sol_data::Uint<8>,
    sol_data::Uint<8>,
    sol_data::Array<sol_data::Uint<8>>,
    sol_data::Array<sol_data::Uint<8>>,
);

fn encode_action(a: &WireAction) -> Vec<u8> {
    <ActionTuple as SolType>::abi_encode(&(
        a.nonce,
        a.hand_id,
        a.kind,
        a.my_cards.clone(),
        a.dealer_cards.clone(),
    ))
}

fn sign_wire(sk: &SigningKey, a: &WireAction) -> [u8; 64] {
    let sig: Signature = sk.sign(&encode_action(a));
    sig.to_bytes().as_slice().try_into().unwrap()
}

fn keypair() -> (SigningKey, Vec<u8>) {
    let sk = SigningKey::random(&mut rand::thread_rng());
    let vk = VerifyingKey::from(&sk).to_encoded_point(false).as_bytes().to_vec();
    (sk, vk)
}

fn fresh_game(player_seed: [u8; 16], pubkey: Vec<u8>, bets: Vec<u128>) -> BlackjackStateMachine {
    BlackjackStateMachine::new([0u8; 16], player_seed, pubkey, bets).unwrap()
}

/// A player seed whose single dealt hand is still in play.
fn live_seed(pubkey: &[u8]) -> [u8; 16] {
    for b in 0u8..=255 {
        let mut seed = [0u8; 16];
        seed[0] = b;
        let m = fresh_game(seed, pubkey.to_vec(), vec![100]);
        if m.hands_active[0] && !m.terminated() {
            return seed;
        }
    }
    panic!("no live seed found");
}

/// A player seed whose single dealt hand is a live equal-rank pair.
fn pair_seed(pubkey: &[u8]) -> [u8; 16] {
    for b in 0u8..=255 {
        for b2 in 0u8..=3 {
            let mut seed = [0u8; 16];
            seed[0] = b;
            seed[1] = b2;
            let m = fresh_game(seed, pubkey.to_vec(), vec![100]);
            if m.hands_active[0] && m.player_hands[0][0] == m.player_hands[0][1] {
                return seed;
            }
        }
    }
    panic!("no pair seed found");
}

fn wire(m: &BlackjackStateMachine, nonce: u8, hand_id: u8, kind: u8) -> WireAction {
    WireAction {
        nonce,
        hand_id,
        kind,
        my_cards: m.player_hands[hand_id as usize].clone(),
        dealer_cards: m.dealer_hand.clone(),
    }
}

#[test]
fn stand_terminates_single_hand_game() {
    let (sk, vk) = keypair();
    let seed = live_seed(&vk);
    let mut m = fresh_game(seed, vk, vec![100]);
    let a = wire(&m, 0, 0, 1);
    let sig = sign_wire(&sk, &a);
    assert_eq!(m.try_input(a, &sig), Ok(()));
    assert!(m.terminated());
    assert!([0u128, 100, 200, 250].contains(&m.winnings[0]));
    // the dealer stands at a best sum of at least 17, never beyond one draw past it
    let best = |h: &[u8]| -> u32 {
        let hard: u32 = h.iter().map(|&c| c as u32).sum();
        if h.contains(&1) && hard + 10 <= 21 { hard + 10 } else { hard }
    };
    assert!(best(&m.dealer_hand) >= 17);
    for k in 2..m.dealer_hand.len() {
        assert!(best(&m.dealer_hand[..k]) < 17);
    }
}

#[test]
fn nonce_must_count_accepted_actions() {
    let (sk, vk) = keypair();
    let seed = live_seed(&vk);
    let mut m = fresh_game(seed, vk, vec![100]);
    let hands_before = m.player_hands.clone();
    let a = wire(&m, 2, 0, 1);
    let sig = sign_wire(&sk, &a);
    assert_eq!(m.try_input(a, &sig), Err(Error::BadNonce));
    assert_eq!(m.player_hands, hands_before);
    assert!(!m.terminated());
    // the correct nonce is accepted afterwards
    let a0 = wire(&m, 0, 0, 1);
    let sig0 = sign_wire(&sk, &a0);
    assert_eq!(m.try_input(a0, &sig0), Ok(()));
}

#[test]
fn tampered_cards_invalidate_signature() {
    let (sk, vk) = keypair();
    let seed = live_seed(&vk);
    let mut m = fresh_game(seed, vk, vec![100]);
    let a = wire(&m, 0, 0, 1);
    let sig = sign_wire(&sk, &a);
    let mut tampered = a;
    tampered.my_cards[0] ^= 1;
    assert_eq!(m.try_input(tampered, &sig), Err(Error::BadSignature));
    assert!(!m.terminated());
}

#[test]
fn wrong_hand_or_stale_cards_rejected() {
    let (sk, vk) = keypair();
    let seed = live_seed(&vk);
    let mut m = fresh_game(seed, vk, vec![100]);
    let mut a = wire(&m, 0, 0, 1);
    a.hand_id = 1;
    let sig = sign_wire(&sk, &a);
    assert_eq!(m.try_input(a, &sig), Err(Error::UnexpectedHand));
    let mut stale = wire(&m, 0, 0, 1);
    stale.dealer_cards.push(5);
    let sig2 = sign_wire(&sk, &stale);
    assert_eq!(m.try_input(stale, &sig2), Err(Error::UnexpectedHand));
}

#[test]
fn unmapped_action_kind_rejected() {
    let (sk, vk) = keypair();
    let seed = live_seed(&vk);
    let mut m = fresh_game(seed, vk, vec![100]);
    let a = wire(&m, 0, 0, 9);
    let sig = sign_wire(&sk, &a);
    assert_eq!(m.try_input(a, &sig), Err(Error::Malformed));
}

#[test]
fn double_draws_once_doubles_bet_and_retires() {
    let (sk, vk) = keypair();
    let seed = live_seed(&vk);
    let mut m = fresh_game(seed, vk, vec![100]);
    let a = wire(&m, 0, 0, 2);
    let sig = sign_wire(&sk, &a);
    assert_eq!(m.try_input(a, &sig), Ok(()));
    assert_eq!(m.player_hands[0].len(), 3);
    assert!(!m.hands_active[0]);
    assert!(m.terminated());
    assert_eq!(m.bets[0], 200);
    assert_eq!(m.doubles, vec![0]);
    assert!([0u128, 200, 400].contains(&m.winnings[0]));
    // double is illegal once the hand holds three cards: replay a hit first
    let (sk2, vk2) = keypair();
    let seed2 = live_seed(&vk2);
    let mut m2 = fresh_game(seed2, vk2, vec![100]);
    let hit = wire(&m2, 0, 0, 0);
    let sig_hit = sign_wire(&sk2, &hit);
    assert_eq!(m2.try_input(hit, &sig_hit), Ok(()));
    if m2.hands_active[0] {
        let dbl = wire(&m2, 1, 0, 2);
        let sig_dbl = sign_wire(&sk2, &dbl);
        assert_eq!(m2.try_input(dbl, &sig_dbl), Err(Error::InvalidAction));
    }
}

#[test]
fn doubling_an_oversized_bet_is_fatal() {
    let (sk, vk) = keypair();
    let seed = live_seed(&vk);
    let mut m = fresh_game(seed, vk, vec![u128::MAX / 2 + 1]);
    let a = wire(&m, 0, 0, 2);
    let sig = sign_wire(&sk, &a);
    assert_eq!(m.try_input(a, &sig), Err(Error::Overflow));
}

#[test]
fn split_needs_a_live_pair_and_grows_hands() {
    let (sk, vk) = keypair();
    let seed = pair_seed(&vk);
    let mut m = fresh_game(seed, vk.clone(), vec![100]);
    let first = m.player_hands[0][0];
    let second = m.player_hands[0][1];
    assert_eq!(first, second);
    let a = wire(&m, 0, 0, 3);
    let sig = sign_wire(&sk, &a);
    assert_eq!(m.try_input(a, &sig), Ok(()));
    assert_eq!(m.player_hands.len(), 2);
    assert_eq!(m.player_hands[0][0], first);
    assert_eq!(m.player_hands[0].len(), 2);
    assert_eq!(m.player_hands[1], vec![second]);
    assert!(m.hands_active[1]);
    assert_eq!(m.bets, vec![100, 100]);
    assert_eq!(m.splits, vec![0]);
    assert!(!m.terminated());
    // splitting an unequal pair is illegal
    let (sk2, vk2) = keypair();
    for b in 0u8..=255 {
        let mut s2 = [0u8; 16];
        s2[0] = b;
        s2[2] = 1;
        let mut m2 = fresh_game(s2, vk2.clone(), vec![100]);
        if m2.hands_active[0] && m2.player_hands[0][0] != m2.player_hands[0][1] {
            let bad = wire(&m2, 0, 0, 3);
            let sig_bad = sign_wire(&sk2, &bad);
            assert_eq!(m2.try_input(bad, &sig_bad), Err(Error::InvalidAction));
            return;
        }
    }
    panic!("no unequal hand found");
}

#[test]
fn extract_needs_termination() {
    let (sk, vk) = keypair();
    let seed = live_seed(&vk);
    let mut m = fresh_game(seed, vk.clone(), vec![100]);
    let a = wire(&m, 0, 0, 1);
    let sig = sign_wire(&sk, &a);
    let m_live = fresh_game(seed, vk.clone(), vec![100]);
    assert!(m_live.extract().is_none());
    assert_eq!(m.try_input(a, &sig), Ok(()));
    let g = m.extract().unwrap();
    assert_eq!(g.player_seed, seed);
    assert_eq!(g.pubkey, vk);
    assert_eq!(g.initial_hands, 1);
    assert_eq!(g.bets, vec![100]);
    assert_eq!(g.actions.len(), 1);
    assert_eq!(g.signatures.len(), 1);
}
