//! Deterministic card source.
//!
//! Cards are drawn from a pseudorandom byte stream that is a pure function of
//! a 32-byte seed (dealer seed followed by player seed). Each draw takes one
//! byte, reduces it modulo 13, adds 1, and clamps values above 10 down to 10,
//! so every card lies in `[1, 10]`; 1 is an ace and 10 stands for any
//! ten-valued card. The generator state is just the seed and a position, so
//! replay determinism is structural.

use vstd::prelude::*;
use rand::Rng;
use rand::SeedableRng;

verus! {

/// The byte that the seeded generator yields at 32-bit-word offset `i`.
pub uninterp spec fn chacha_byte(seed: Seq<u8>, i: int) -> u8;

/// Relies on rand_chacha::ChaCha8Rng (`from_seed`, `set_word_pos`) and
/// rand::Rng::gen::<u8> (one 32-bit word per byte drawn): the byte at each
/// word offset of the stream is a function of the 32-byte seed alone.
#[verifier::external_body]
fn chacha_byte_at(dealer_seed: &[u8; 16], player_seed: &[u8; 16], i: u64) -> (r: u8)
    ensures
        r == chacha_byte(dealer_seed@ + player_seed@, i as int),
{
    let mut seed = [0u8; 32];
    seed[..16].copy_from_slice(dealer_seed);
    seed[16..].copy_from_slice(player_seed);
    let mut rng = rand_chacha::ChaCha8Rng::from_seed(seed);
    rng.set_word_pos(i as u128);
    rng.gen::<u8>()
}

/// The rank obtained from one stream byte: modulo 13, plus 1, clamped to 10.
pub open spec fn card_of(b: u8) -> u8 {
    if b % 13 + 1 > 10 {
        10u8
    } else {
        (b % 13 + 1) as u8
    }
}

/// The card drawn at position `i` of the stream for `seed`.
pub open spec fn card_at(seed: Seq<u8>, i: int) -> u8 {
    card_of(chacha_byte(seed, i))
}

/// A restartable card source: a seed pair plus the number of cards already
/// drawn. Two sources with equal fields yield the same future cards.
#[derive(Clone, Copy)]
pub struct CardSource {
    pub dealer_seed: [u8; 16],
    pub player_seed: [u8; 16],
    pub pos: u64,
}

impl CardSource {
    /// The 32-byte seed of the stream: dealer seed, then player seed.
    pub open spec fn seed(&self) -> Seq<u8> {
        self.dealer_seed@ + self.player_seed@
    }

    /// Start a source at the beginning of the stream for the seed pair.
    pub fn new(dealer_seed: [u8; 16], player_seed: [u8; 16]) -> (r: CardSource)
        ensures
            r.dealer_seed == dealer_seed,
            r.player_seed == player_seed,
            r.pos == 0,
    {
        CardSource { dealer_seed, player_seed, pos: 0 }
    }

    /// Draw the next card. Every card lies in `[1, 10]`, and the card drawn
    /// at a given seed and position is always the same.
    pub fn draw(&mut self) -> (card: u8)
        requires
            old(self).pos < u64::MAX,
        ensures
            final(self).dealer_seed == old(self).dealer_seed,
            final(self).player_seed == old(self).player_seed,
            final(self).pos == old(self).pos + 1,
            card == card_at(old(self).seed(), old(self).pos as int),
            1 <= card <= 10,
    {
        let b = chacha_byte_at(&self.dealer_seed, &self.player_seed, self.pos);
        self.pos = self.pos + 1;
        let m = b % 13;
        let c = m + 1;
        if c > 10 {
            10
        } else {
            c
        }
    }
}

} // verus!
