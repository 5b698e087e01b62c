//! Bits of `OrderCommand::service_flags`.

use vstd::prelude::*;

verus! {

/// The command was generated to match against the complementary book
/// (a mint or a merge).
pub const CROSS_BOOK_MATCH: i32 = 0x01;

} // verus!
