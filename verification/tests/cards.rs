use blackjack_core::cards::CardSource;
use blackjack_core::hand::is_blackjack;
use rand::Rng;
use rand::SeedableRng;

#[test]
fn cards_in_range_and_deterministic() {
    let mut src = CardSource::new([3u8; 16], [7u8; 16]);
    let mut first: Vec<u8> = Vec::new();
    for _ in 0..50 {
        let c = src.draw();
        assert!((1..=10).contains(&c));
        first.push(c);
    }
    let mut src2 = CardSource::new([3u8; 16], [7u8; 16]);
    let second: Vec<u8> = (0..50).map(|_| src2.draw()).collect();
    assert_eq!(first, second);
}

#[test]
fn card_source_matches_seeded_generator() {
    let dealer_seed = [9u8; 16];
    let player_seed = [250u8; 16];
    let mut seed = [0u8; 32];
    seed[..16].copy_from_slice(&dealer_seed);
    seed[16..].copy_from_slice(&player_seed);
    let mut rng = rand_chacha::ChaCha8Rng::from_seed(seed);
    let mut src = CardSource::new(dealer_seed, player_seed);
    for _ in 0..40 {
        let b: u8 = rng.gen();
        let expected = {
            let c = b % 13 + 1;
            if c > 10 { 10 } else { c }
        };
        assert_eq!(src.draw(), expected);
    }
}

#[test]
fn blackjack_is_one_ace_and_one_ten() {
    assert!(is_blackjack(&vec![1, 10]));
    assert!(is_blackjack(&vec![10, 1]));
    assert!(!is_blackjack(&vec![10, 10]));
    assert!(!is_blackjack(&vec![1, 1]));
    assert!(!is_blackjack(&vec![2, 9]));
    assert!(!is_blackjack(&vec![1, 10, 10]));
    assert!(!is_blackjack(&vec![1]));
}
