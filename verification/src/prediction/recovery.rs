//! Market configuration, and recovery of a market from saved snapshots.
//!
//! Snapshots are stored as files named `prediction_snapshot_{seq}.bin`. The
//! file system and the encoding of snapshots are handled by the caller; this
//! module numbers snapshots, names and recognises their files, picks the
//! latest one and rebuilds a market from it.

use vstd::prelude::*;
use vstd::string::StringExecFns;
use vstd::string::StringSliceAdditionalSpecFns;
use vstd::utf8::encode_utf8;
use crate::book::BookState;
use super::{MarketId, PredictionError, TokenId};
use super::unified::{state_checksum, UnifiedOrderBook, UnifiedOrderBookSnapshot};

verus! {

#[verifier::external_type_specification]
#[verifier::external_body]
pub struct ExPathBuf(std::path::PathBuf);

/// Static configuration of a market.
#[derive(Debug, Clone, Copy)]
pub struct MarketConfig {
    /// Market.
    pub id: MarketId,
    /// Token id of YES.
    pub yes_token: TokenId,
    /// Token id of NO.
    pub no_token: TokenId,
    /// Condition the market resolves.
    pub condition_id: [u8; 32],
}

impl MarketConfig {
    /// The configuration with the given fields.
    pub fn new(id: MarketId, yes_token: TokenId, no_token: TokenId, condition_id: [u8; 32]) -> (r: Self)
        ensures
            r.id == id,
            r.yes_token == yes_token,
            r.no_token == no_token,
            r.condition_id == condition_id,
    {
        Self { id, yes_token, no_token, condition_id }
    }
}

/// Numbers the snapshots of a market and rebuilds the market from them.
#[derive(Debug)]
pub struct RecoveryManager {
    snapshot_path: std::path::PathBuf,
    wal_path: std::path::PathBuf,
    last_snapshot_seq: u64,
    last_event_seq: u64,
}

/// Calls `<PathBuf as Clone>::clone`. Nothing is claimed of the copy: a
/// `PathBuf` is opaque here, so that it names the same path is left unsaid.
#[verifier::external_body]
fn clone_path(p: &std::path::PathBuf) -> std::path::PathBuf {
    p.clone()
}

impl Clone for RecoveryManager {
    /// A copy with the same snapshot and event numbers and copies of the
    /// two paths.
    fn clone(&self) -> (r: Self)
        ensures
            r.snapshot_seq() == self.snapshot_seq(),
            r.event_seq() == self.event_seq(),
    {
        RecoveryManager {
            snapshot_path: clone_path(&self.snapshot_path),
            wal_path: clone_path(&self.wal_path),
            last_snapshot_seq: self.last_snapshot_seq,
            last_event_seq: self.last_event_seq,
        }
    }
}

/// The market id that a snapshot's YES book symbol yields on recovery: the
/// symbol id read back as the unsigned 32-bit number that `UnifiedOrderBook::new`
/// stored from the market id.
pub open spec fn recovered_market_id(snapshot: UnifiedOrderBookSnapshot) -> MarketId {
    (snapshot.yes_book_snapshot@.spec.symbol_id as u32) as u64
}

impl RecoveryManager {
    /// Directory of the snapshot files.
    pub closed spec fn snapshot_dir(&self) -> std::path::PathBuf {
        self.snapshot_path
    }

    /// Path of the write-ahead log.
    pub closed spec fn wal_file(&self) -> std::path::PathBuf {
        self.wal_path
    }

    /// Number of the last snapshot saved.
    pub closed spec fn snapshot_seq(&self) -> u64 {
        self.last_snapshot_seq
    }

    /// Event sequence number of the last snapshot saved.
    pub closed spec fn event_seq(&self) -> u64 {
        self.last_event_seq
    }

    /// A manager for the given directory and log, with no snapshot yet.
    pub fn new(snapshot_path: std::path::PathBuf, wal_path: std::path::PathBuf) -> (r: Self)
        ensures
            r.snapshot_dir() == snapshot_path,
            r.wal_file() == wal_path,
            r.snapshot_seq() == 0,
            r.event_seq() == 0,
    {
        Self { snapshot_path, wal_path, last_snapshot_seq: 0, last_event_seq: 0 }
    }

    /// Directory of the snapshot files.
    pub fn snapshot_path(&self) -> (r: &std::path::PathBuf)
        ensures
            *r == self.snapshot_dir(),
    {
        &self.snapshot_path
    }

    /// Path of the write-ahead log.
    pub fn wal_path(&self) -> (r: &std::path::PathBuf)
        ensures
            *r == self.wal_file(),
    {
        &self.wal_path
    }

    /// The next snapshot of `orderbook` to save, and its number: the
    /// snapshot carries `event_seq` and a log offset of 0, the manager
    /// counts one more snapshot and remembers `event_seq`.
    pub fn prepare_snapshot_save(&mut self, orderbook: &UnifiedOrderBook, event_seq: u64, wal_offset: u64) -> (r: (UnifiedOrderBookSnapshot, u64))
        requires
            orderbook.wf(),
            old(self).snapshot_seq() < u64::MAX,
        ensures
            r.0.wf(),
            r.0.yes_book_snapshot@ == orderbook.yes_state(),
            r.0.no_book_snapshot@ == orderbook.no_state(),
            r.0.checksum == state_checksum(orderbook.market_id, orderbook.yes_state(), orderbook.no_state()),
            r.0.event_sequence == event_seq,
            r.0.wal_offset == 0,
            final(self).snapshot_seq() == old(self).snapshot_seq() + 1,
            final(self).event_seq() == event_seq,
            final(self).snapshot_dir() == old(self).snapshot_dir(),
            final(self).wal_file() == old(self).wal_file(),
            r.1 == final(self).snapshot_seq(),
    {
        let mut snapshot = orderbook.take_snapshot(event_seq, wal_offset);
        snapshot.event_sequence = event_seq;
        snapshot.wal_offset = 0;
        self.last_snapshot_seq = self.last_snapshot_seq + 1;
        self.last_event_seq = event_seq;
        (snapshot, self.last_snapshot_seq)
    }

    /// Rebuilds a market from a loaded snapshot: a fresh market whose id is
    /// derived from the YES book's symbol (`recovered_market_id`) restores
    /// the snapshot; returns it with the snapshot's event sequence number.
    pub fn book_from_snapshot(snapshot: UnifiedOrderBookSnapshot) -> (r: Result<(UnifiedOrderBook, u64), PredictionError>)
        requires
            snapshot.wf(),
        ensures
            ({
                let m = recovered_market_id(snapshot);
                let got = state_checksum(m, snapshot.yes_book_snapshot@, snapshot.no_book_snapshot@);
                if got == snapshot.checksum {
                    &&& r is Ok
                    &&& r->Ok_0.0.wf()
                    &&& r->Ok_0.0.market_id == m
                    &&& r->Ok_0.0.yes_state() == snapshot.yes_book_snapshot@
                    &&& r->Ok_0.0.no_state() == snapshot.no_book_snapshot@
                    &&& r->Ok_0.1 == snapshot.event_sequence
                } else {
                    r == Err::<(UnifiedOrderBook, u64), PredictionError>(
                        PredictionError::ChecksumMismatch { expected: snapshot.checksum, got },
                    )
                }
            }),
    {
        let symbol_id = snapshot.yes_book_snapshot.get_symbol_spec().symbol_id;
        let market_id = (symbol_id as u32) as MarketId;
        let event_sequence = snapshot.event_sequence;
        let mut orderbook = UnifiedOrderBook::new(market_id);
        match orderbook.restore_snapshot(snapshot) {
            Ok(()) => Ok((orderbook, event_sequence)),
            Err(e) => Err(e),
        }
    }

    /// Full recovery from the latest snapshot, if one was found: the market
    /// rebuilt from it with the snapshot's number and event sequence number;
    /// with no snapshot, an empty market 0 and numbers 0.
    pub fn full_recovery(&self, latest: Option<(u64, UnifiedOrderBookSnapshot)>) -> (r: Result<(UnifiedOrderBook, u64, u64), PredictionError>)
        requires
            latest matches Some(p) ==> p.1.wf(),
        ensures
            match latest {
                None => {
                    &&& r is Ok
                    &&& r->Ok_0.0.wf()
                    &&& r->Ok_0.0.market_id == 0
                    &&& r->Ok_0.0.yes_state() == (BookState { spec: super::unified::market_spec(0), asks: Seq::empty(), bids: Seq::empty() })
                    &&& r->Ok_0.0.no_state() == (BookState { spec: super::unified::market_spec(0), asks: Seq::empty(), bids: Seq::empty() })
                    &&& r->Ok_0.1 == 0
                    &&& r->Ok_0.2 == 0
                },
                Some((seq, snapshot)) => {
                    let m = recovered_market_id(snapshot);
                    let got = state_checksum(m, snapshot.yes_book_snapshot@, snapshot.no_book_snapshot@);
                    if got == snapshot.checksum {
                        &&& r is Ok
                        &&& r->Ok_0.0.wf()
                        &&& r->Ok_0.0.market_id == m
                        &&& r->Ok_0.0.yes_state() == snapshot.yes_book_snapshot@
                        &&& r->Ok_0.0.no_state() == snapshot.no_book_snapshot@
                        &&& r->Ok_0.1 == seq
                        &&& r->Ok_0.2 == snapshot.event_sequence
                    } else {
                        r == Err::<(UnifiedOrderBook, u64, u64), PredictionError>(
                            PredictionError::ChecksumMismatch { expected: snapshot.checksum, got },
                        )
                    }
                },
            },
    {
        match latest {
            Some((seq, snapshot)) => {
                match Self::book_from_snapshot(snapshot) {
                    Ok((orderbook, event_seq)) => Ok((orderbook, seq, event_seq)),
                    Err(e) => Err(e),
                }
            },
            None => {
                let orderbook = UnifiedOrderBook::new(0);
                Ok((orderbook, 0, 0))
            },
        }
    }

    /// Number of the last snapshot saved.
    pub fn last_snapshot_seq(&self) -> (r: u64)
        ensures
            r == self.snapshot_seq(),
    {
        self.last_snapshot_seq
    }

    /// Event sequence number of the last snapshot saved.
    pub fn last_event_seq(&self) -> (r: u64)
        ensures
            r == self.event_seq(),
    {
        self.last_event_seq
    }
}

/// Recovery gives back the market a snapshot was taken of. Take a market
/// whose id fits in 32 bits and whose YES book trades the symbol of that id,
/// as every market made by `UnifiedOrderBook::new` does and `place_order`
/// and `cancel_order` keep, and a snapshot of it as `take_snapshot` makes
/// it: the id recovered from the snapshot is the market's id, and the
/// snapshot passes the checksum test under it. So `book_from_snapshot` and
/// `full_recovery` return a market with that id and the snapshot's books.
pub proof fn lemma_recovery_round_trip(b: UnifiedOrderBook, snapshot: UnifiedOrderBookSnapshot)
    requires
        b.wf(),
        b.market_id <= u32::MAX,
        b.yes_state().spec.symbol_id == b.market_id as i32,
        snapshot.yes_book_snapshot@ == b.yes_state(),
        snapshot.no_book_snapshot@ == b.no_state(),
        snapshot.checksum == state_checksum(b.market_id, b.yes_state(), b.no_state()),
    ensures
        recovered_market_id(snapshot) == b.market_id,
        state_checksum(recovered_market_id(snapshot), snapshot.yes_book_snapshot@, snapshot.no_book_snapshot@)
            == snapshot.checksum,
{
    let m = b.market_id;
    assert(((m as i32) as u32) as u64 == m) by (bit_vector)
        requires
            m <= 0xffff_ffffu64,
    ;
}

// ---------------------------------------------------------------------------
// Snapshot file names
// ---------------------------------------------------------------------------

/// The decimal digit character of `d` (`0 <= d < 10`).
pub open spec fn decimal_digit(d: int) -> char {
    (48 + d) as char
}

/// `n` in decimal, without leading zeros.
pub open spec fn decimal(n: nat) -> Seq<char>
    decreases n,
{
    if n < 10 {
        seq![decimal_digit(n as int)]
    } else {
        decimal(n / 10).push(decimal_digit((n % 10) as int))
    }
}

/// The name of snapshot file number `seq`: `prediction_snapshot_{seq}.bin`.
pub open spec fn snapshot_file_name_spec(seq: u64) -> Seq<char> {
    "prediction_snapshot_"@ + decimal(seq as nat) + ".bin"@
}

/// A byte is an ASCII decimal digit.
pub open spec fn is_digit_byte(c: u8) -> bool {
    48 <= c <= 57
}

/// Value of a run of ASCII decimal digits.
pub open spec fn digits_value(d: Seq<u8>) -> int
    decreases d.len(),
{
    if d.len() == 0 {
        0
    } else {
        digits_value(d.drop_last()) * 10 + (d.last() - 48)
    }
}

/// A run of at least one ASCII decimal digit whose value fits in a `u64`.
pub open spec fn parse_digits_spec(d: Seq<u8>) -> Option<u64> {
    if d.len() > 0 && (forall|i: int| 0 <= i < d.len() ==> is_digit_byte(#[trigger] d[i])) && digits_value(d)
        <= u64::MAX {
        Some(digits_value(d) as u64)
    } else {
        None
    }
}

/// `u64` parsing of a byte string: an optional `+`, then at least one
/// decimal digit, with a value that fits in a `u64`.
pub open spec fn parse_u64_spec(b: Seq<u8>) -> Option<u64> {
    parse_digits_spec(
        if b.len() > 0 && b[0] == 43 {
            b.drop_first()
        } else {
            b
        },
    )
}

/// The snapshot number of a file named by the UTF-8 bytes `b`: the name is
/// `prediction_snapshot_` and `.bin` around a number that parses as a `u64`.
pub open spec fn snapshot_seq_of_name(b: Seq<u8>) -> Option<u64> {
    let p = encode_utf8("prediction_snapshot_"@);
    let s = encode_utf8(".bin"@);
    if b.len() >= p.len() + s.len() && b.take(p.len() as int) == p && b.skip(b.len() - s.len()) == s {
        parse_u64_spec(b.subrange(p.len() as int, b.len() - s.len()))
    } else {
        None
    }
}

/// The largest snapshot number among the names (as UTF-8 bytes), if any
/// name is a snapshot file name.
pub open spec fn latest_seq_of_names(names: Seq<Seq<u8>>) -> Option<u64>
    decreases names.len(),
{
    if names.len() == 0 {
        None
    } else {
        let rest = latest_seq_of_names(names.drop_last());
        match snapshot_seq_of_name(names.last()) {
            None => rest,
            Some(seq) => match rest {
                Some(m) => if seq > m {
                    Some(seq)
                } else {
                    Some(m)
                },
                None => Some(seq),
            },
        }
    }
}

/// The latest snapshot number is the largest over all the names: none
/// exactly when no name is a snapshot file name, and otherwise the number of
/// some name and at least the number of every name.
pub proof fn lemma_latest_seq_is_max(names: Seq<Seq<u8>>)
    ensures
        latest_seq_of_names(names) is None <==> forall|i: int|
            0 <= i < names.len() ==> #[trigger] snapshot_seq_of_name(names[i]) is None,
        latest_seq_of_names(names) matches Some(m) ==> {
            &&& exists|i: int| 0 <= i < names.len() && #[trigger] snapshot_seq_of_name(names[i]) == Some(m)
            &&& forall|i: int|
                0 <= i < names.len() ==> (#[trigger] snapshot_seq_of_name(names[i]) matches Some(s)
                    ==> s <= m)
        },
    decreases names.len(),
{
    if names.len() == 0 {
        return;
    }
    let d = names.drop_last();
    lemma_latest_seq_is_max(d);
    let last = names.len() - 1;
    assert(names[last] == names.last());
    assert forall|i: int| 0 <= i < d.len() implies names[i] == #[trigger] d[i] by {}
    let r = latest_seq_of_names(names);
    if r is None {
        assert forall|i: int| 0 <= i < names.len() implies #[trigger] snapshot_seq_of_name(names[i]) is None by {
            if i < d.len() {
                assert(names[i] == d[i]);
            }
        }
    } else {
        if forall|i: int| 0 <= i < names.len() ==> #[trigger] snapshot_seq_of_name(names[i]) is None {
            assert(snapshot_seq_of_name(names[last]) is None);
            assert forall|i: int| 0 <= i < d.len() implies #[trigger] snapshot_seq_of_name(d[i]) is None by {
                assert(names[i] == d[i]);
                assert(snapshot_seq_of_name(names[i]) is None);
            }
            assert(false);
        }
    }
    if let Some(m) = r {
        assert(exists|i: int| 0 <= i < names.len() && #[trigger] snapshot_seq_of_name(names[i]) == Some(m)) by {
            if snapshot_seq_of_name(names[last]) == Some(m) {
            } else {
                let i = choose|i: int| 0 <= i < d.len() && #[trigger] snapshot_seq_of_name(d[i]) == Some(m);
                assert(names[i] == d[i]);
                assert(snapshot_seq_of_name(names[i]) == Some(m));
            }
        }
        assert forall|i: int| 0 <= i < names.len() implies (#[trigger] snapshot_seq_of_name(names[i]) matches Some(s)
            ==> s <= m) by {
            if i < d.len() {
                assert(names[i] == d[i]);
                assert(snapshot_seq_of_name(d[i]) == snapshot_seq_of_name(names[i]));
            }
        }
    }
}

/// Calls `ToString::to_string` on a `u64`: `u64`'s `Display` writes the
/// number in decimal, without sign or leading zeros.
#[verifier::external_body]
fn u64_to_decimal(n: u64) -> (r: String)
    ensures
        r@ == decimal(n as nat),
{
    n.to_string()
}

/// `b[start..start + pat.len()]` equals `pat`.
fn bytes_match_at(b: &[u8], start: usize, pat: &[u8]) -> (r: bool)
    requires
        start + pat@.len() <= b@.len(),
    ensures
        r == (b@.subrange(start as int, start + pat@.len()) == pat@),
{
    let n = b.len();
    let mut i: usize = 0;
    while i < pat.len()
        invariant
            i <= pat@.len(),
            n == b@.len(),
            start + pat@.len() <= b@.len(),
            forall|j: int| 0 <= j < i ==> b@[start + j] == #[trigger] pat@[j],
        decreases pat@.len() - i,
    {
        if b[start + i] != pat[i] {
            proof {
                assert(b@.subrange(start as int, start + pat@.len())[i as int] != pat@[i as int]);
            }
            return false;
        }
        i = i + 1;
    }
    proof {
        assert(b@.subrange(start as int, start + pat@.len()) =~= pat@);
    }
    true
}

/// The value of a digit run is at least the value of any of its prefixes.
proof fn lemma_digits_value_prefix(d: Seq<u8>, k: int)
    requires
        0 <= k <= d.len(),
        forall|i: int| 0 <= i < d.len() ==> is_digit_byte(#[trigger] d[i]),
    ensures
        0 <= digits_value(d.take(k)) <= digits_value(d),
    decreases d.len(),
{
    if k < d.len() {
        assert(forall|i: int| 0 <= i < d.drop_last().len() ==> is_digit_byte(#[trigger] d.drop_last()[i])
            ) by {
            assert forall|i: int| 0 <= i < d.drop_last().len() implies is_digit_byte(
                #[trigger] d.drop_last()[i],
            ) by {
                assert(d.drop_last()[i] == d[i]);
            }
        }
        lemma_digits_value_prefix(d.drop_last(), k);
        assert(d.drop_last().take(k) =~= d.take(k));
    } else {
        assert(d.take(k) =~= d);
        if d.len() > 0 {
            assert(forall|i: int| 0 <= i < d.drop_last().len() ==> is_digit_byte(#[trigger] d.drop_last()[i]))
                by {
                assert forall|i: int| 0 <= i < d.drop_last().len() implies is_digit_byte(
                    #[trigger] d.drop_last()[i],
                ) by {
                    assert(d.drop_last()[i] == d[i]);
                }
            }
            lemma_digits_value_prefix(d.drop_last(), k - 1);
            assert(d.drop_last().take(k - 1) =~= d.drop_last());
        }
    }
}

/// `u64` parsing of `b[lo..hi]`.
fn parse_u64_bytes(b: &[u8], lo: usize, hi: usize) -> (r: Option<u64>)
    requires
        lo <= hi <= b@.len(),
    ensures
        r == parse_u64_spec(b@.subrange(lo as int, hi as int)),
{
    let ghost whole = b@.subrange(lo as int, hi as int);
    let mut start = lo;
    if start < hi && b[start] == 43 {
        start = start + 1;
    }
    let ghost d = b@.subrange(start as int, hi as int);
    proof {
        if lo < hi && b@[lo as int] == 43 {
            assert(whole.drop_first() =~= d);
        } else {
            assert(whole =~= d);
        }
    }
    if start == hi {
        return None;
    }
    let mut acc: u64 = 0;
    let mut i = start;
    while i < hi
        invariant
            start <= i <= hi <= b@.len(),
            d == b@.subrange(start as int, hi as int),
            parse_u64_spec(b@.subrange(lo as int, hi as int)) == parse_digits_spec(d),
            forall|j: int| start <= j < i ==> is_digit_byte(#[trigger] b@[j]),
            acc == digits_value(b@.subrange(start as int, i as int)),
        decreases hi - i,
    {
        let c = b[i];
        let ghost pre = b@.subrange(start as int, i as int);
        let ghost next = b@.subrange(start as int, i + 1);
        proof {
            assert(next.drop_last() =~= pre);
        }
        if c < 48 || c > 57 {
            proof {
                assert(d[i - start] == c);
                assert(!is_digit_byte(d[i - start]));
            }
            return None;
        }
        let digit = (c - 48) as u64;
        let shifted = acc.checked_mul(10);
        match shifted {
            None => {
                proof {
                    assert(digits_value(next) == acc * 10 + (c - 48));
                    if forall|q: int| 0 <= q < d.len() ==> is_digit_byte(#[trigger] d[q]) {
                        assert(d.take(i + 1 - start) =~= next);
                        lemma_digits_value_prefix(d, i + 1 - start);
                    }
                }
                return None;
            },
            Some(x) => {
                match x.checked_add(digit) {
                    None => {
                        proof {
                            assert(digits_value(next) == acc * 10 + (c - 48));
                            if forall|q: int| 0 <= q < d.len() ==> is_digit_byte(#[trigger] d[q]) {
                                assert(d.take(i + 1 - start) =~= next);
                                lemma_digits_value_prefix(d, i + 1 - start);
                            }
                        }
                        return None;
                    },
                    Some(y) => {
                        proof {
                            assert(digits_value(next) == acc * 10 + (c - 48));
                        }
                        acc = y;
                    },
                }
            },
        }
        i = i + 1;
    }
    proof {
        assert(b@.subrange(start as int, i as int) =~= d);
        assert forall|j: int| 0 <= j < d.len() implies is_digit_byte(#[trigger] d[j]) by {
            assert(d[j] == b@[start + j]);
        }
    }
    Some(acc)
}

impl RecoveryManager {
    /// The file name of snapshot number `seq`: `prediction_snapshot_{seq}.bin`.
    pub fn snapshot_file_name(seq: u64) -> (r: String)
        ensures
            r@ == snapshot_file_name_spec(seq),
    {
        let digits = u64_to_decimal(seq);
        let mut name = String::from_str("prediction_snapshot_");
        name.append(digits.as_str());
        name.append(".bin");
        name
    }

    /// The snapshot number in file name `name`, if it is a snapshot file name.
    pub fn snapshot_seq_from_file_name(name: &str) -> (r: Option<u64>)
        ensures
            r == snapshot_seq_of_name(name.spec_bytes()),
    {
        let b = name.as_bytes();
        let p = "prediction_snapshot_".as_bytes();
        let s = ".bin".as_bytes();
        if b.len() < p.len() || b.len() - p.len() < s.len() {
            return None;
        }
        let tail = b.len() - s.len();
        if !bytes_match_at(b, 0, p) {
            proof {
                assert(b@.subrange(0, p@.len() as int) =~= b@.take(p@.len() as int));
            }
            return None;
        }
        if !bytes_match_at(b, tail, s) {
            proof {
                assert(b@.subrange(tail as int, tail + s@.len()) =~= b@.skip(tail as int));
            }
            return None;
        }
        proof {
            assert(b@.subrange(0, p@.len() as int) =~= b@.take(p@.len() as int));
            assert(b@.subrange(tail as int, tail + s@.len()) =~= b@.skip(tail as int));
        }
        parse_u64_bytes(b, p.len(), tail)
    }

    /// The largest snapshot number among the file names, if any is a
    /// snapshot file name.
    pub fn latest_snapshot_seq(names: &Vec<String>) -> (r: Option<u64>)
        ensures
            r == latest_seq_of_names(names@.map_values(|n: String| encode_utf8(n@))),
            r is None <==> forall|i: int|
                0 <= i < names@.len() ==> #[trigger] snapshot_seq_of_name(encode_utf8(names@[i]@)) is None,
            r matches Some(m) ==> {
                &&& exists|i: int|
                    0 <= i < names@.len() && #[trigger] snapshot_seq_of_name(encode_utf8(names@[i]@)) == Some(m)
                &&& forall|i: int|
                    0 <= i < names@.len() ==> (#[trigger] snapshot_seq_of_name(encode_utf8(names@[i]@)) matches Some(s)
                        ==> s <= m)
            },
    {
        let ghost all = names@.map_values(|n: String| encode_utf8(n@));
        let mut max_seq: Option<u64> = None;
        let mut i: usize = 0;
        while i < names.len()
            invariant
                i <= names@.len(),
                all == names@.map_values(|n: String| encode_utf8(n@)),
                max_seq == latest_seq_of_names(all.take(i as int)),
            decreases names@.len() - i,
        {
            proof {
                assert(all.take(i + 1).drop_last() =~= all.take(i as int));
                assert(all.take(i + 1).last() == encode_utf8(names@[i as int]@));
            }
            let found = Self::snapshot_seq_from_file_name(names[i].as_str());
            match found {
                Some(seq) => {
                    match max_seq {
                        Some(m) => {
                            if seq > m {
                                max_seq = Some(seq);
                            }
                        },
                        None => {
                            max_seq = Some(seq);
                        },
                    }
                },
                None => {},
            }
            i = i + 1;
        }
        proof {
            assert(all.take(i as int) =~= all);
            lemma_latest_seq_is_max(all);
            assert forall|i: int| 0 <= i < names@.len() implies #[trigger] snapshot_seq_of_name(
                encode_utf8(names@[i]@),
            ) == snapshot_seq_of_name(all[i]) by {}
            if let Some(m) = max_seq {
                let k = choose|k: int| 0 <= k < all.len() && #[trigger] snapshot_seq_of_name(all[k]) == Some(m);
                assert(snapshot_seq_of_name(encode_utf8(names@[k]@)) == Some(m));
            } else {
                assert forall|i: int| 0 <= i < names@.len() implies #[trigger] snapshot_seq_of_name(
                    encode_utf8(names@[i]@),
                ) is None by {
                    assert(snapshot_seq_of_name(all[i]) is None);
                }
            }
            if forall|i: int| 0 <= i < names@.len() ==> #[trigger] snapshot_seq_of_name(encode_utf8(names@[i]@)) is None {
                assert forall|i: int| 0 <= i < all.len() implies #[trigger] snapshot_seq_of_name(all[i]) is None by {
                    assert(snapshot_seq_of_name(encode_utf8(names@[i]@)) is None);
                }
            }
        }
        max_seq
    }
}

/// The decimal spelling of `n` is a non-empty run of digits whose bytes
/// have value `n`.
proof fn lemma_decimal(n: nat)
    ensures
        decimal(n).len() >= 1,
        forall|i: int| 0 <= i < decimal(n).len() ==> '0' <= #[trigger] decimal(n)[i] <= '9',
        digits_value(decimal(n).map_values(|c: char| c as u8)) == n,
    decreases n,
{
    let bytes = decimal(n).map_values(|c: char| c as u8);
    if n < 10 {
        assert(bytes.drop_last() =~= Seq::<u8>::empty());
        assert(digits_value(Seq::<u8>::empty()) == 0);
        assert(bytes.last() == (48 + n) as u8);
        assert(digits_value(bytes) == digits_value(bytes.drop_last()) * 10 + (bytes.last() - 48));
    } else {
        lemma_decimal(n / 10);
        let prev = decimal(n / 10).map_values(|c: char| c as u8);
        assert(bytes.drop_last() =~= prev);
        assert(bytes.last() == (48 + n % 10) as u8);
        assert(n == (n / 10) * 10 + n % 10);
        assert(digits_value(bytes) == digits_value(bytes.drop_last()) * 10 + (bytes.last() - 48));
        assert forall|i: int| 0 <= i < decimal(n).len() implies '0' <= #[trigger] decimal(n)[i] <= '9' by {
            if i < decimal(n).len() - 1 {
                assert(decimal(n)[i] == decimal(n / 10)[i]);
            }
        }
    }
}

/// The file name of snapshot `seq` is recognised as snapshot `seq`: the
/// number a save writes into a name is the number a recovery reads back.
pub proof fn lemma_snapshot_file_name_round_trip(seq: u64)
    ensures
        snapshot_seq_of_name(encode_utf8(snapshot_file_name_spec(seq))) == Some(seq),
{
    reveal_strlit("prediction_snapshot_");
    reveal_strlit(".bin");
    let p = "prediction_snapshot_"@;
    let s = ".bin"@;
    let dec = decimal(seq as nat);
    lemma_decimal(seq as nat);
    let name = snapshot_file_name_spec(seq);
    assert(name == p + dec + s);
    assert(vstd::utf8::is_ascii_chars(p));
    assert(vstd::utf8::is_ascii_chars(s));
    assert(vstd::utf8::is_ascii_chars(name)) by {
        assert forall|i: int| 0 <= i < name.len() implies '\0' <= #[trigger] name[i] <= '\u{7f}' by {
            if i < p.len() {
                assert(name[i] == p[i]);
            } else if i < p.len() + dec.len() {
                assert(name[i] == dec[i - p.len()]);
            } else {
                assert(name[i] == s[i - p.len() - dec.len()]);
            }
        }
    }
    vstd::utf8::is_ascii_chars_encode_utf8(p);
    vstd::utf8::is_ascii_chars_encode_utf8(s);
    vstd::utf8::is_ascii_chars_encode_utf8(name);
    let b = encode_utf8(name);
    let pb = encode_utf8(p);
    let sb = encode_utf8(s);
    assert(b.take(pb.len() as int) =~= pb) by {
        assert forall|i: int| 0 <= i < pb.len() implies b.take(pb.len() as int)[i] == pb[i] by {
            assert(name[i] == p[i]);
        }
    }
    assert(b.skip(b.len() - sb.len()) =~= sb) by {
        assert forall|i: int| 0 <= i < sb.len() implies b.skip(b.len() - sb.len())[i] == sb[i] by {
            assert(name[b.len() - sb.len() + i] == s[i]);
        }
    }
    let mid = b.subrange(pb.len() as int, b.len() - sb.len());
    let dec_bytes = dec.map_values(|c: char| c as u8);
    assert(mid =~= dec_bytes) by {
        assert forall|i: int| 0 <= i < dec_bytes.len() implies mid[i] == dec_bytes[i] by {
            assert(name[pb.len() + i] == dec[i]);
        }
    }
    assert(mid[0] != 43);
    assert forall|i: int| 0 <= i < mid.len() implies is_digit_byte(#[trigger] mid[i]) by {
        assert(mid[i] == dec[i] as u8);
        assert('0' <= dec[i] <= '9');
    }
}

} // verus!
