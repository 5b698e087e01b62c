//! Order matching for binary prediction markets.
//!
//! Each market trades a pair of complementary outcome tokens, YES and NO,
//! whose prices add up to one unit of collateral (`PRICE_SCALE`). Orders are
//! matched inside the book of their own token first (a normal trade) and then
//! against the book of the complementary token (a mint for two bids, a merge
//! for two asks).

pub mod api;
pub mod book;
pub mod prediction;
