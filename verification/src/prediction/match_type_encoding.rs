//! The kind of match, kept in the top byte of `events_group`.

use vstd::prelude::*;
use super::MatchType;

verus! {

/// Mask of the byte that holds the match type.
pub const MASK: u64 = 0xFF00000000000000;

/// Top byte of a normal match.
pub const NORMAL: u64 = 0x0100000000000000;

/// Top byte of a mint.
pub const MINT: u64 = 0x0200000000000000;

/// Top byte of a merge.
pub const MERGE: u64 = 0x0300000000000000;

/// Mask of the low 56 bits, which hold a counter.
pub const COUNTER_MASK: u64 = 0x00FFFFFFFFFFFFFF;

/// The top byte that marks `match_type`.
pub open spec fn flag_of(match_type: MatchType) -> u64 {
    match match_type {
        MatchType::Normal => NORMAL,
        MatchType::Mint => MINT,
        MatchType::Merge => MERGE,
    }
}

/// The match type whose flag is the top byte of `events_group`, if any.
pub open spec fn decode_spec(events_group: u64) -> Option<MatchType> {
    let flag = events_group & MASK;
    if flag == NORMAL {
        Some(MatchType::Normal)
    } else if flag == MINT {
        Some(MatchType::Mint)
    } else if flag == MERGE {
        Some(MatchType::Merge)
    } else {
        None
    }
}

/// `events_group` for `match_type` and the low 56 bits of `counter`.
pub fn encode(match_type: MatchType, counter: u64) -> (r: u64)
    ensures
        r == flag_of(match_type) | (counter & COUNTER_MASK),
        r & MASK == flag_of(match_type),
        r & COUNTER_MASK == counter & COUNTER_MASK,
{
    let flag = match match_type {
        MatchType::Normal => NORMAL,
        MatchType::Mint => MINT,
        MatchType::Merge => MERGE,
    };
    let r = flag | (counter & COUNTER_MASK);
    proof {
        lemma_flags();
        lemma_flag_and_counter(flag, counter);
    }
    r
}

/// The match type marked in the top byte of `events_group`, if it is one.
pub fn decode(events_group: u64) -> (r: Option<MatchType>)
    ensures
        r == decode_spec(events_group),
{
    let flag = events_group & MASK;
    if flag == NORMAL {
        Some(MatchType::Normal)
    } else if flag == MINT {
        Some(MatchType::Mint)
    } else if flag == MERGE {
        Some(MatchType::Merge)
    } else {
        None
    }
}

/// The flags lie in the top byte, clear of the counter bits.
proof fn lemma_flags()
    ensures
        NORMAL & COUNTER_MASK == 0,
        MINT & COUNTER_MASK == 0,
        MERGE & COUNTER_MASK == 0,
        NORMAL & MASK == NORMAL,
        MINT & MASK == MINT,
        MERGE & MASK == MERGE,
{
    assert(0x0100000000000000u64 & 0x00FFFFFFFFFFFFFFu64 == 0) by (bit_vector);
    assert(0x0200000000000000u64 & 0x00FFFFFFFFFFFFFFu64 == 0) by (bit_vector);
    assert(0x0300000000000000u64 & 0x00FFFFFFFFFFFFFFu64 == 0) by (bit_vector);
    assert(0x0100000000000000u64 & 0xFF00000000000000u64 == 0x0100000000000000u64) by (bit_vector);
    assert(0x0200000000000000u64 & 0xFF00000000000000u64 == 0x0200000000000000u64) by (bit_vector);
    assert(0x0300000000000000u64 & 0xFF00000000000000u64 == 0x0300000000000000u64) by (bit_vector);
}

/// A flag byte and a 56-bit counter occupy disjoint bits.
proof fn lemma_flag_and_counter(flag: u64, counter: u64)
    requires
        flag & COUNTER_MASK == 0,
    ensures
        (flag | (counter & COUNTER_MASK)) & MASK == flag & MASK,
        (flag | (counter & COUNTER_MASK)) & COUNTER_MASK == counter & COUNTER_MASK,
{
    assert((flag | (counter & 0x00FFFFFFFFFFFFFFu64)) & 0xFF00000000000000u64 == flag
        & 0xFF00000000000000u64) by (bit_vector);
    assert(flag & 0x00FFFFFFFFFFFFFFu64 == 0 ==> (flag | (counter & 0x00FFFFFFFFFFFFFFu64))
        & 0x00FFFFFFFFFFFFFFu64 == counter & 0x00FFFFFFFFFFFFFFu64) by (bit_vector);
}

/// Decoding an encoded `events_group` gives back the match type, whatever
/// the counter.
pub proof fn lemma_decode_encode(match_type: MatchType, counter: u64)
    ensures
        decode_spec(flag_of(match_type) | (counter & COUNTER_MASK)) == Some(match_type),
{
    let flag = flag_of(match_type);
    lemma_flags();
    lemma_flag_and_counter(flag, counter);
}

} // verus!
