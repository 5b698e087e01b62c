//! Binary prediction markets on top of the order book.
//!
//! A market has a YES and a NO token; a price is a fraction of one unit of
//! collateral, scaled by `PRICE_SCALE`, and the prices of the two tokens are
//! complementary (`price_yes + price_no == PRICE_SCALE`).

use vstd::prelude::*;

pub mod service_flags;
pub mod match_type_encoding;
pub mod order;
pub mod converter;
pub mod events;
pub mod unified;
pub mod replay;
pub mod recovery;

pub use self::order::PredictionOrder;
pub use self::converter::OrderConverter;
pub use self::events::{PredictionTradeEvent, ReplayEvent};
pub use self::unified::{UnifiedOrderBook, UnifiedOrderBookSnapshot};
pub use self::replay::EventReplayManager;
pub use self::recovery::{MarketConfig, RecoveryManager};


verus! {

/// Identifier of a market (the condition of the outcome tokens).
pub type MarketId = u64;

/// Identifier of an outcome token.
pub type TokenId = u64;

/// Price precision: one unit of collateral is `PRICE_SCALE`.
pub const PRICE_SCALE: i64 = 1_000_000;

/// Monotonically increasing event sequence numbers.
#[derive(Debug, Clone, Copy)]
pub struct EventSequenceGenerator {
    counter: u64,
}

impl View for EventSequenceGenerator {
    type V = u64;

    /// The number the next call of `next` hands out.
    closed spec fn view(&self) -> u64 {
        self.counter
    }
}

impl EventSequenceGenerator {
    /// A generator whose first number is `start`.
    pub fn new(start: u64) -> (r: Self)
        ensures
            r@ == start,
    {
        Self { counter: start }
    }

    /// Hands out the current number and moves to the next one.
    pub fn next(&mut self) -> (r: u64)
        requires
            old(self)@ < u64::MAX,
        ensures
            r == old(self)@,
            final(self)@ == old(self)@ + 1,
    {
        let seq = self.counter;
        self.counter = self.counter + 1;
        seq
    }

    /// The number the next call of `next` hands out.
    pub fn current(&self) -> (r: u64)
        ensures
            r == self@,
    {
        self.counter
    }
}

impl Default for EventSequenceGenerator {
    fn default() -> (r: Self)
        ensures
            r@ == 0,
    {
        Self { counter: 0 }
    }
}

/// The two complementary outcome tokens of a market.
#[derive(Clone, Copy, Debug, PartialEq, Eq, Hash, Structural)]
pub enum TokenType {
    /// The event happens.
    YES,
    /// The event does not happen.
    NO,
}

/// The other token of the pair.
pub open spec fn complement_of(t: TokenType) -> TokenType {
    match t {
        TokenType::YES => TokenType::NO,
        TokenType::NO => TokenType::YES,
    }
}

impl TokenType {
    /// The other token of the pair.
    pub fn complement(&self) -> (r: Self)
        ensures
            r == complement_of(*self),
            r != *self,
    {
        match self {
            TokenType::YES => TokenType::NO,
            TokenType::NO => TokenType::YES,
        }
    }
}

/// Taking the complement twice gives the token back.
pub proof fn lemma_complement_involutive(t: TokenType)
    ensures
        complement_of(complement_of(t)) == t,
        complement_of(t) != t,
{
}

/// Kind of match a trade belongs to.
#[derive(Clone, Copy, Debug, PartialEq, Eq, Structural)]
pub enum MatchType {
    /// A bid and an ask of the same token.
    Normal,
    /// Bids for both tokens whose prices sum to at least `PRICE_SCALE`:
    /// collateral is locked and a new YES/NO pair is minted.
    Mint,
    /// Asks for both tokens whose prices sum to at most `PRICE_SCALE`: a
    /// YES/NO pair is burnt and the collateral released.
    Merge,
}

/// Why a prediction-market operation was refused.
#[derive(Clone, Copy, Debug, PartialEq, Eq, Structural)]
pub enum PredictionError {
    /// A replay was asked to start beyond the end of the event log.
    InvalidReplayPosition { position: usize, len: usize },
    /// No logged event has the requested sequence number.
    SequenceNotFound { sequence: u64 },
    /// A snapshot's stored checksum differs from the one computed from its books.
    ChecksumMismatch { expected: u64, got: u64 },
}

} // verus!
