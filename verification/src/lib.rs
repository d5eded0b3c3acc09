pub mod cards;
pub mod hand;
pub mod payout;
pub mod wire;
pub mod crypto;
pub mod game;
pub mod batch;
