//! The unified YES/NO order book of one market.
//!
//! An order first trades in the book of its own token (a normal trade). If
//! some of it is left, an immediate-or-cancel mirror order on the opposite
//! side, at the complementary price, trades in the book of the other token:
//! a YES bid meets NO bids (a mint, `price_yes + price_no >= PRICE_SCALE`),
//! a YES ask meets NO asks (a merge, `price_yes + price_no <= PRICE_SCALE`),
//! and the same with YES and NO exchanged.

use vstd::prelude::*;
use vstd::std_specs::hash::DefaultHasherAdditionalSpecFns;
use std::collections::hash_map::DefaultHasher;
use std::hash::Hasher;
use crate::api::{
    CommandResultCode, CoreSymbolSpecification, L2MarketData, MatcherTradeEvent, OrderAction,
    OrderCommand, OrderCommandType, OrderType, Price, Size, SymbolType,
};
use crate::book::{
    cancel_result, crosses, events_volume, l2_side, lemma_events_volume_concat,
    lemma_events_volume_prefix, lemma_levels_aggregate, lemma_match_side, lemma_trades_name_makers, levels, match_side,
    at_least_as_good,
    new_order_result, opposite, rests, sum_sizes, taker_of, BookState, DirectOrderBook, TakerOrder,
};
use super::{complement_of, MarketId, MatchType, PredictionError, TokenType, PRICE_SCALE};
use super::converter::{decode_symbol_spec, OrderConverter};
use super::match_type_encoding;
use super::service_flags;

verus! {

#[verifier::external_type_specification]
#[verifier::external_body]
pub struct ExSystemTime(std::time::SystemTime);

#[verifier::external_type_specification]
#[verifier::external_body]
pub struct ExSystemTimeError(std::time::SystemTimeError);

/// Calls `std::time::SystemTime::now`. Nothing is claimed of the reading.
#[verifier::external_body]
fn system_time_now() -> std::time::SystemTime {
    std::time::SystemTime::now()
}

/// Calls `SystemTime::duration_since` with `UNIX_EPOCH`. Nothing is claimed
/// of the result, which depends on the clock.
#[verifier::external_body]
fn duration_since_unix_epoch(
    t: &std::time::SystemTime,
) -> std::result::Result<std::time::Duration, std::time::SystemTimeError> {
    t.duration_since(std::time::UNIX_EPOCH)
}

/// Calls `Duration::as_secs`. Nothing is claimed: a `Duration` is opaque here.
#[verifier::external_body]
fn duration_as_secs(d: &std::time::Duration) -> u64 {
    d.as_secs()
}

/// Seconds since the Unix epoch on the system clock, or `None` when the
/// clock reads before the epoch. Nothing is known of the reading.
fn read_clock() -> Option<u64> {
    let now = system_time_now();
    match duration_since_unix_epoch(&now) {
        Ok(d) => Some(duration_as_secs(&d)),
        Err(_) => None,
    }
}

/// The snapshot timestamp for a clock reading: the seconds since the epoch
/// as an `i64` (wrapping as a cast does), or 0 before the epoch.
pub open spec fn timestamp_of_reading(since_epoch_secs: Option<u64>) -> i64 {
    match since_epoch_secs {
        Some(secs) => secs as i64,
        None => 0,
    }
}

/// The snapshot timestamp for a clock reading (see `timestamp_of_reading`).
pub fn unix_timestamp(since_epoch_secs: Option<u64>) -> (r: i64)
    ensures
        r == timestamp_of_reading(since_epoch_secs),
{
    match since_epoch_secs {
        Some(secs) => #[verifier::truncate] (secs as i64),
        None => 0,
    }
}

/// The symbol that both books of market `market_id` trade.
pub open spec fn market_spec(market_id: MarketId) -> CoreSymbolSpecification {
    CoreSymbolSpecification {
        symbol_id: market_id as i32,
        symbol_type: SymbolType::CurrencyExchangePair,
        base_currency: 0,
        quote_currency: 1,
        base_scale_k: 1,
        quote_scale_k: PRICE_SCALE,
        taker_fee: 0,
        maker_fee: 0,
        margin_buy: 0,
        margin_sell: 0,
    }
}

/// What the checksum hashes: the market id, then for the YES and then the
/// NO book the ask total and the bid total, as `Hasher::write_u64` writes a
/// `u64`, and the numbers of ask and bid price levels, as
/// `Hasher::write_usize` writes a `usize`: in the machine's byte order.
pub open spec fn checksum_writes(market_id: u64, yes: BookState, no: BookState) -> Seq<Seq<u8>> {
    seq![
        native_u64_bytes(market_id),
        native_u64_bytes(sum_sizes(yes.asks) as u64),
        native_u64_bytes(sum_sizes(yes.bids) as u64),
        native_usize_bytes(levels(yes.asks).len() as usize),
        native_usize_bytes(levels(yes.bids).len() as usize),
        native_u64_bytes(sum_sizes(no.asks) as u64),
        native_u64_bytes(sum_sizes(no.bids) as u64),
        native_usize_bytes(levels(no.asks).len() as usize),
        native_usize_bytes(levels(no.bids).len() as usize),
    ]
}

/// The bytes of `x` in the machine's byte order.
pub open spec fn native_u64_bytes(x: u64) -> Seq<u8> {
    match vstd::endian::endianness() {
        vstd::endian::Endian::Little => vstd::bytes::spec_u64_to_le_bytes(x),
        vstd::endian::Endian::Big => vstd::bytes::spec_u64_to_le_bytes(x).reverse(),
    }
}

/// The bytes of `x` in the machine's byte order: eight on a 64-bit machine,
/// four on a 32-bit one.
pub open spec fn native_usize_bytes(x: usize) -> Seq<u8> {
    if usize::BITS == 64 {
        native_u64_bytes(x as u64)
    } else {
        match vstd::endian::endianness() {
            vstd::endian::Endian::Little => vstd::bytes::spec_u32_to_le_bytes(x as u32),
            vstd::endian::Endian::Big => vstd::bytes::spec_u32_to_le_bytes(x as u32).reverse(),
        }
    }
}

/// The checksum of a market's state: `DefaultHasher` over `checksum_writes`.
pub open spec fn state_checksum(market_id: u64, yes: BookState, no: BookState) -> u64 {
    DefaultHasher::spec_finish(checksum_writes(market_id, yes, no))
}

/// The YES asks outweigh the NO bids by more than half: with `va` the YES
/// ask total and `vb` the NO bid total, `va > vb` and
/// `(va - vb) / (va + 1) > 1/2`.
pub open spec fn volume_imbalanced(yes: BookState, no: BookState) -> bool {
    let va = sum_sizes(yes.asks);
    let vb = sum_sizes(no.bids);
    va > vb && 2 * (va - vb) > va + 1
}

/// The best YES ask and the best NO bid both exist and their prices add up
/// to more than 1000 away from `PRICE_SCALE`.
pub open spec fn best_prices_misaligned(yes: BookState, no: BookState) -> bool {
    let a = levels(yes.asks);
    let b = levels(no.bids);
    &&& a.len() > 0
    &&& b.len() > 0
    &&& (a[0].0 + b[0].0 > PRICE_SCALE + 1000 || a[0].0 + b[0].0 < PRICE_SCALE - 1000)
}

/// The two books of a market do not fit together.
pub open spec fn books_inconsistent(yes: BookState, no: BookState) -> bool {
    volume_imbalanced(yes, no) || best_prices_misaligned(yes, no)
}

/// `price_scale - price` fits in an `i64`.
pub open spec fn complement_fits(price_scale: i64, price: i64) -> bool {
    i64::MIN <= price_scale - price <= i64::MAX
}

/// The mirror order that takes what a normal match left of `cmd` to the
/// other book: opposite side, complementary price, immediate or cancel.
pub open spec fn counter_taker(cmd: OrderCommand, price_scale: i64, remaining: int) -> TakerOrder {
    TakerOrder {
        order_id: 0,
        uid: cmd.uid,
        action: opposite(cmd.action),
        order_type: OrderType::Ioc,
        price: (price_scale - cmd.price) as i64,
        reserve_price: cmd.reserve_price,
        size: remaining as i64,
        timestamp: cmd.timestamp,
    }
}

/// What the normal match in book `own` leaves of `cmd`.
pub open spec fn normal_leftover(own: BookState, cmd: OrderCommand) -> int {
    cmd.size - events_volume(new_order_result(own, taker_of(cmd)).1)
}

/// Both books after placing `cmd` into its own book `own` and, if something
/// is left, its mirror order into the other book `other`; and the trades,
/// normal ones first.
pub open spec fn cross_match(own: BookState, other: BookState, cmd: OrderCommand, price_scale: i64) -> (
    BookState,
    BookState,
    Seq<MatcherTradeEvent>,
) {
    let n = new_order_result(own, taker_of(cmd));
    let remaining = normal_leftover(own, cmd);
    if remaining > 0 {
        let c = new_order_result(other, counter_taker(cmd, price_scale, remaining));
        (n.0, c.0, n.1 + c.1)
    } else {
        (n.0, other, n.1)
    }
}

/// Places `cmd` into `own`, then its leftover as a mirror order on side
/// `counter_action` into `other`; the mirror's trades are appended to
/// `cmd`'s with `cmd`'s reserve price, and `cmd.size` drops by everything
/// that was filled.
fn match_with_complement(
    own: &mut DirectOrderBook,
    other: &mut DirectOrderBook,
    price_scale: i64,
    cmd: &mut OrderCommand,
    counter_action: OrderAction,
    cross_type: MatchType,
) -> (r: CommandResultCode)
    requires
        old(own).wf(),
        old(other).wf(),
        counter_action == opposite(old(cmd).action),
        normal_leftover(old(own)@, *old(cmd)) > 0 ==> complement_fits(price_scale, old(cmd).price),
    ensures
        final(own).wf(),
        final(other).wf(),
        ({
            let res = cross_match(old(own)@, old(other)@, *old(cmd), price_scale);
            &&& final(own)@ == res.0
            &&& final(other)@ == res.1
            &&& final(cmd).matcher_events@ == old(cmd).matcher_events@ + res.2
            &&& final(cmd).size == old(cmd).size - events_volume(res.2)
        }),
        final(cmd).same_but_fill(*old(cmd)),
        r == CommandResultCode::Success,
{
    let ghost cmd0 = *cmd;
    let ghost own0 = own@;
    let ghost other0 = other@;
    let ghost t = taker_of(cmd0);
    let original_size = cmd.size;
    let initial_event_count = cmd.matcher_events.len();

    own.new_order(cmd);

    let ghost n = new_order_result(own0, t).1;
    proof {
        let opp = opposite(t.action);
        let _ = lemma_match_side(own0.side(opp), t.action, t.price, t.size as int, t.reserve_price);
        assert(n == match_side(own0.side(opp), t.action, t.price, t.size as int, t.reserve_price).0);
        assert(cmd.matcher_events@.len() == initial_event_count + n.len());
    }
    let mut normal_filled: Size = 0;
    let mut i = initial_event_count;
    while i < cmd.matcher_events.len()
        invariant
            initial_event_count <= i <= cmd.matcher_events@.len(),
            cmd.matcher_events@ == cmd0.matcher_events@ + n,
            initial_event_count == cmd0.matcher_events@.len(),
            normal_filled == events_volume(n.take(i - initial_event_count)),
            forall|j: int| 0 <= j < n.len() ==> #[trigger] n[j].size > 0,
            events_volume(n) <= if original_size > 0 { original_size as int } else { 0 },
        decreases cmd.matcher_events@.len() - i,
    {
        let ghost k = i - initial_event_count;
        proof {
            assert(n.take(k + 1).drop_last() =~= n.take(k));
            assert(cmd.matcher_events@[i as int] == n[k]);
            lemma_events_volume_prefix(n, k + 1);
        }
        normal_filled = normal_filled + cmd.matcher_events[i].size;
        i = i + 1;
    }
    proof {
        assert(n.take(n.len() as int) =~= n);
    }
    let remaining = original_size - normal_filled;

    if remaining > 0 {
        let complement_price = price_scale - cmd.price;
        let user_id = cmd.uid;
        let symbol = cmd.symbol;
        let timestamp = cmd.timestamp;
        let reserve_price = cmd.reserve_price;

        let mut counter_cmd = OrderCommand {
            command: OrderCommandType::PlaceOrder,
            result_code: CommandResultCode::New,
            uid: user_id,
            order_id: 0,
            symbol,
            price: complement_price,
            reserve_price,
            size: remaining,
            action: counter_action,
            order_type: OrderType::Ioc,
            timestamp,
            events_group: match_type_encoding::encode(cross_type, #[verifier::truncate] (timestamp as u64)),
            service_flags: service_flags::CROSS_BOOK_MATCH,
            stop_price: None,
            visible_size: None,
            expire_time: None,
            matcher_events: Vec::with_capacity(4),
        };
        let ghost ct = counter_taker(cmd0, price_scale, remaining as int);
        proof {
            assert(taker_of(counter_cmd) == ct);
        }

        other.new_order(&mut counter_cmd);

        let ghost c = new_order_result(other0, ct).1;
        let ghost base = cmd.matcher_events@;
        proof {
            let opp = opposite(ct.action);
            let _ = lemma_match_side(other0.side(opp), ct.action, ct.price, ct.size as int, ct.reserve_price);
            assert(c == match_side(other0.side(opp), ct.action, ct.price, ct.size as int, ct.reserve_price).0);
            assert(counter_cmd.matcher_events@ =~= c);
        }
        let mut counter_filled: Size = 0;
        let mut j: usize = 0;
        while j < counter_cmd.matcher_events.len()
            invariant
                j <= counter_cmd.matcher_events@.len(),
                counter_cmd.matcher_events@ == c,
                forall|q: int| 0 <= q < c.len() ==> (#[trigger] c[q]).bidder_hold_price == reserve_price,
                forall|q: int| 0 <= q < c.len() ==> (#[trigger] c[q]).size > 0,
                events_volume(c) <= remaining,
                counter_filled == events_volume(c.take(j as int)),
                cmd.matcher_events@ == base + c.take(j as int),
                cmd.same_but_events(cmd0),
                reserve_price == cmd0.reserve_price,
            decreases counter_cmd.matcher_events@.len() - j,
        {
            proof {
                assert(c.take(j + 1).drop_last() =~= c.take(j as int));
                lemma_events_volume_prefix(c, j + 1);
            }
            counter_filled = counter_filled + counter_cmd.matcher_events[j].size;
            let event = counter_cmd.matcher_events[j];
            cmd.matcher_events.push(
                MatcherTradeEvent::new_trade(
                    event.size,
                    event.price,
                    event.matched_order_id,
                    event.matched_order_uid,
                    cmd.reserve_price,
                ),
            );
            proof {
                assert(c.take(j + 1) =~= c.take(j as int).push(c[j as int]));
            }
            j = j + 1;
        }
        proof {
            assert(c.take(c.len() as int) =~= c);
            assert(cmd.matcher_events@ =~= cmd0.matcher_events@ + (n + c));
            lemma_events_volume_concat(n, c);
        }
        cmd.size = original_size - normal_filled - counter_filled;
    } else {
        cmd.size = original_size - normal_filled;
    }
    CommandResultCode::Success
}

/// A snapshot of both books of a market.
#[derive(Debug)]
pub struct UnifiedOrderBookSnapshot {
    /// The YES book.
    pub yes_book_snapshot: DirectOrderBook,
    /// The NO book.
    pub no_book_snapshot: DirectOrderBook,
    /// Unix time of the snapshot, in seconds.
    pub timestamp: i64,
    /// Checksum of the state the snapshot was taken from.
    pub checksum: u64,
    /// Event sequence number at the snapshot.
    pub event_sequence: u64,
    /// Write-ahead-log offset at the snapshot.
    pub wal_offset: u64,
}

impl UnifiedOrderBookSnapshot {
    /// Both books are well formed.
    pub open spec fn wf(&self) -> bool {
        self.yes_book_snapshot.wf() && self.no_book_snapshot.wf()
    }
}

impl Clone for UnifiedOrderBookSnapshot {
    fn clone(&self) -> (r: Self)
        ensures
            r.yes_book_snapshot@ == self.yes_book_snapshot@,
            r.no_book_snapshot@ == self.no_book_snapshot@,
            self.wf() ==> r.wf(),
            r.timestamp == self.timestamp,
            r.checksum == self.checksum,
            r.event_sequence == self.event_sequence,
            r.wal_offset == self.wal_offset,
    {
        UnifiedOrderBookSnapshot {
            yes_book_snapshot: self.yes_book_snapshot.clone(),
            no_book_snapshot: self.no_book_snapshot.clone(),
            timestamp: self.timestamp,
            checksum: self.checksum,
            event_sequence: self.event_sequence,
            wal_offset: self.wal_offset,
        }
    }
}

/// Calls `u64::to_ne_bytes`: the eight bytes of `x` in the machine's byte
/// order, copied into a `Vec`.
#[verifier::external_body]
fn u64_to_ne_bytes(x: u64) -> (r: Vec<u8>)
    ensures
        r@ == native_u64_bytes(x),
{
    x.to_ne_bytes().to_vec()
}

/// Calls `usize::to_ne_bytes`: the bytes of `x`, as many as a `usize` has,
/// in the machine's byte order, copied into a `Vec`.
#[verifier::external_body]
fn usize_to_ne_bytes(x: usize) -> (r: Vec<u8>)
    ensures
        r@ == native_usize_bytes(x),
{
    x.to_ne_bytes().to_vec()
}

/// Feeds `x` to the hasher as `Hasher::write_u64` does: its bytes in the
/// machine's byte order.
fn hash_u64(hasher: &mut DefaultHasher, x: u64)
    ensures
        final(hasher)@ == old(hasher)@.push(native_u64_bytes(x)),
{
    let bytes = u64_to_ne_bytes(x);
    hasher.write(bytes.as_slice());
}

/// Feeds `x` to the hasher as `Hasher::write_usize` does: its bytes in the
/// machine's byte order.
fn hash_usize(hasher: &mut DefaultHasher, x: usize)
    ensures
        final(hasher)@ == old(hasher)@.push(native_usize_bytes(x)),
{
    let bytes = usize_to_ne_bytes(x);
    hasher.write(bytes.as_slice());
}

/// The checksum of market `market_id` with books `yes` and `no`.
fn checksum_of(market_id: u64, yes: &DirectOrderBook, no: &DirectOrderBook) -> (r: u64)
    requires
        yes.wf(),
        no.wf(),
    ensures
        r == state_checksum(market_id, yes@, no@),
{
    let mut hasher = DefaultHasher::new();
    hash_u64(&mut hasher, market_id);

    let yes_ask_vol = yes.get_total_ask_volume();
    let yes_bid_vol = yes.get_total_bid_volume();
    let yes_ask_count = yes.get_ask_buckets_count();
    let yes_bid_count = yes.get_bid_buckets_count();
    hash_u64(&mut hasher, yes_ask_vol as u64);
    hash_u64(&mut hasher, yes_bid_vol as u64);
    hash_usize(&mut hasher, yes_ask_count);
    hash_usize(&mut hasher, yes_bid_count);

    let no_ask_vol = no.get_total_ask_volume();
    let no_bid_vol = no.get_total_bid_volume();
    let no_ask_count = no.get_ask_buckets_count();
    let no_bid_count = no.get_bid_buckets_count();
    hash_u64(&mut hasher, no_ask_vol as u64);
    hash_u64(&mut hasher, no_bid_vol as u64);
    hash_usize(&mut hasher, no_ask_count);
    hash_usize(&mut hasher, no_bid_count);

    proof {
        assert(hasher@ =~= checksum_writes(market_id, yes@, no@));
    }
    hasher.finish()
}

/// The YES and NO books of one market.
#[derive(Debug)]
pub struct UnifiedOrderBook {
    /// The market.
    pub market_id: MarketId,
    /// The YES book.
    pub yes_book: DirectOrderBook,
    /// The NO book.
    pub no_book: DirectOrderBook,
    /// Price of one unit of collateral.
    pub price_scale: i64,
}

impl UnifiedOrderBook {
    /// State of the YES book.
    pub open spec fn yes_state(&self) -> BookState {
        self.yes_book@
    }

    /// State of the NO book.
    pub open spec fn no_state(&self) -> BookState {
        self.no_book@
    }

    /// State of the book of token `t`.
    pub open spec fn state_of(&self, t: TokenType) -> BookState {
        match t {
            TokenType::YES => self.yes_state(),
            TokenType::NO => self.no_state(),
        }
    }

    /// Both books are well formed and the price scale is `PRICE_SCALE`.
    pub open spec fn wf(&self) -> bool {
        &&& self.yes_book.wf()
        &&& self.no_book.wf()
        &&& self.price_scale == PRICE_SCALE
    }

    /// A market with two empty books.
    pub fn new(market_id: MarketId) -> (r: Self)
        ensures
            r.wf(),
            r.market_id == market_id,
            r.price_scale == PRICE_SCALE,
            r.yes_state() == (BookState { spec: market_spec(market_id), asks: Seq::empty(), bids: Seq::empty() }),
            r.no_state() == (BookState { spec: market_spec(market_id), asks: Seq::empty(), bids: Seq::empty() }),
    {
        let spec = CoreSymbolSpecification {
            symbol_id: market_id as i32,
            symbol_type: SymbolType::CurrencyExchangePair,
            base_currency: 0,
            quote_currency: 1,
            base_scale_k: 1,
            quote_scale_k: PRICE_SCALE,
            taker_fee: 0,
            maker_fee: 0,
            margin_buy: 0,
            margin_sell: 0,
        };
        Self {
            market_id,
            yes_book: DirectOrderBook::new(spec),
            no_book: DirectOrderBook::new(spec),
            price_scale: PRICE_SCALE,
        }
    }

    /// The price of the complementary token: `price_scale - price`.
    pub fn complement_price(&self, price: Price) -> (r: Price)
        requires
            complement_fits(self.price_scale, price),
        ensures
            r == self.price_scale - price,
    {
        self.price_scale - price
    }

    /// Whether the two prices add up to `price_scale`.
    pub fn are_complementary(&self, price_a: Price, price_b: Price) -> (r: bool)
        requires
            i64::MIN <= price_a + price_b <= i64::MAX,
        ensures
            r == (price_a + price_b == self.price_scale),
    {
        price_a + price_b == self.price_scale
    }

    /// Places `cmd`. A command whose symbol decodes to another market is
    /// refused with `MatchingInvalidOrderBookId` (also written to
    /// `cmd.result_code`) and changes nothing. Otherwise the order trades in
    /// the book of its token and its leftover trades as a mirror order in the
    /// book of the other token (see `cross_match`); `cmd.size` is then what
    /// is left unfilled, and the result is `Success`.
    pub fn place_order(&mut self, cmd: &mut OrderCommand) -> (r: CommandResultCode)
        requires
            old(self).wf(),
            ({
                let (m, t) = decode_symbol_spec(old(cmd).symbol);
                m == old(self).market_id && normal_leftover(old(self).state_of(t), *old(cmd)) > 0
                    ==> complement_fits(old(self).price_scale, old(cmd).price)
            }),
        ensures
            final(self).wf(),
            final(self).market_id == old(self).market_id,
            final(self).price_scale == old(self).price_scale,
            final(self).yes_state().spec == old(self).yes_state().spec,
            final(self).no_state().spec == old(self).no_state().spec,
            ({
                let (m, t) = decode_symbol_spec(old(cmd).symbol);
                if m != old(self).market_id {
                    &&& r == CommandResultCode::MatchingInvalidOrderBookId
                    &&& final(cmd).result_code == r
                    &&& final(cmd).same_request(*old(cmd))
                    &&& final(cmd).matcher_events@ == old(cmd).matcher_events@
                    &&& final(self).yes_state() == old(self).yes_state()
                    &&& final(self).no_state() == old(self).no_state()
                } else {
                    let res = cross_match(
                        old(self).state_of(t),
                        old(self).state_of(complement_of(t)),
                        *old(cmd),
                        old(self).price_scale,
                    );
                    &&& r == CommandResultCode::Success
                    &&& final(self).state_of(t) == res.0
                    &&& final(self).state_of(complement_of(t)) == res.1
                    &&& final(cmd).matcher_events@ == old(cmd).matcher_events@ + res.2
                    &&& final(cmd).size == old(cmd).size - events_volume(res.2)
                    &&& final(cmd).same_but_fill(*old(cmd))
                }
            }),
    {
        let (decoded_market_id, token_type) = OrderConverter::decode_symbol_id(cmd.symbol);
        if decoded_market_id != self.market_id {
            cmd.result_code = CommandResultCode::MatchingInvalidOrderBookId;
            return cmd.result_code;
        }
        match (token_type, cmd.action) {
            (TokenType::YES, OrderAction::Bid) => self.match_yes_bid(cmd),
            (TokenType::YES, OrderAction::Ask) => self.match_yes_ask(cmd),
            (TokenType::NO, OrderAction::Bid) => self.match_no_bid(cmd),
            (TokenType::NO, OrderAction::Ask) => self.match_no_ask(cmd),
        }
    }

    /// A YES bid: normal match in the YES book, then a mint against NO bids.
    fn match_yes_bid(&mut self, cmd: &mut OrderCommand) -> (r: CommandResultCode)
        requires
            old(self).wf(),
            old(cmd).action == OrderAction::Bid,
            normal_leftover(old(self).yes_state(), *old(cmd)) > 0 ==> complement_fits(
                old(self).price_scale,
                old(cmd).price,
            ),
        ensures
            final(self).wf(),
            final(self).market_id == old(self).market_id,
            final(self).price_scale == old(self).price_scale,
            ({
                let res = cross_match(old(self).yes_state(), old(self).no_state(), *old(cmd), old(self).price_scale);
                &&& final(self).yes_state() == res.0
                &&& final(self).no_state() == res.1
                &&& final(cmd).matcher_events@ == old(cmd).matcher_events@ + res.2
                &&& final(cmd).size == old(cmd).size - events_volume(res.2)
            }),
            final(cmd).same_but_fill(*old(cmd)),
            r == CommandResultCode::Success,
    {
        match_with_complement(
            &mut self.yes_book,
            &mut self.no_book,
            self.price_scale,
            cmd,
            OrderAction::Ask,
            MatchType::Mint,
        )
    }

    /// A YES ask: normal match in the YES book, then a merge against NO asks.
    fn match_yes_ask(&mut self, cmd: &mut OrderCommand) -> (r: CommandResultCode)
        requires
            old(self).wf(),
            old(cmd).action == OrderAction::Ask,
            normal_leftover(old(self).yes_state(), *old(cmd)) > 0 ==> complement_fits(
                old(self).price_scale,
                old(cmd).price,
            ),
        ensures
            final(self).wf(),
            final(self).market_id == old(self).market_id,
            final(self).price_scale == old(self).price_scale,
            ({
                let res = cross_match(old(self).yes_state(), old(self).no_state(), *old(cmd), old(self).price_scale);
                &&& final(self).yes_state() == res.0
                &&& final(self).no_state() == res.1
                &&& final(cmd).matcher_events@ == old(cmd).matcher_events@ + res.2
                &&& final(cmd).size == old(cmd).size - events_volume(res.2)
            }),
            final(cmd).same_but_fill(*old(cmd)),
            r == CommandResultCode::Success,
    {
        match_with_complement(
            &mut self.yes_book,
            &mut self.no_book,
            self.price_scale,
            cmd,
            OrderAction::Bid,
            MatchType::Merge,
        )
    }

    /// A NO bid: normal match in the NO book, then a mint against YES bids.
    fn match_no_bid(&mut self, cmd: &mut OrderCommand) -> (r: CommandResultCode)
        requires
            old(self).wf(),
            old(cmd).action == OrderAction::Bid,
            normal_leftover(old(self).no_state(), *old(cmd)) > 0 ==> complement_fits(
                old(self).price_scale,
                old(cmd).price,
            ),
        ensures
            final(self).wf(),
            final(self).market_id == old(self).market_id,
            final(self).price_scale == old(self).price_scale,
            ({
                let res = cross_match(old(self).no_state(), old(self).yes_state(), *old(cmd), old(self).price_scale);
                &&& final(self).no_state() == res.0
                &&& final(self).yes_state() == res.1
                &&& final(cmd).matcher_events@ == old(cmd).matcher_events@ + res.2
                &&& final(cmd).size == old(cmd).size - events_volume(res.2)
            }),
            final(cmd).same_but_fill(*old(cmd)),
            r == CommandResultCode::Success,
    {
        match_with_complement(
            &mut self.no_book,
            &mut self.yes_book,
            self.price_scale,
            cmd,
            OrderAction::Ask,
            MatchType::Mint,
        )
    }

    /// A NO ask: normal match in the NO book, then a merge against YES asks.
    fn match_no_ask(&mut self, cmd: &mut OrderCommand) -> (r: CommandResultCode)
        requires
            old(self).wf(),
            old(cmd).action == OrderAction::Ask,
            normal_leftover(old(self).no_state(), *old(cmd)) > 0 ==> complement_fits(
                old(self).price_scale,
                old(cmd).price,
            ),
        ensures
            final(self).wf(),
            final(self).market_id == old(self).market_id,
            final(self).price_scale == old(self).price_scale,
            ({
                let res = cross_match(old(self).no_state(), old(self).yes_state(), *old(cmd), old(self).price_scale);
                &&& final(self).no_state() == res.0
                &&& final(self).yes_state() == res.1
                &&& final(cmd).matcher_events@ == old(cmd).matcher_events@ + res.2
                &&& final(cmd).size == old(cmd).size - events_volume(res.2)
            }),
            final(cmd).same_but_fill(*old(cmd)),
            r == CommandResultCode::Success,
    {
        match_with_complement(
            &mut self.no_book,
            &mut self.yes_book,
            self.price_scale,
            cmd,
            OrderAction::Bid,
            MatchType::Merge,
        )
    }

    /// Cancels `cmd`'s order in the book of the token its symbol decodes to
    /// (the market part of the symbol is not checked); the other book is
    /// untouched.
    pub fn cancel_order(&mut self, cmd: &mut OrderCommand) -> (r: CommandResultCode)
        requires
            old(self).wf(),
        ensures
            final(self).wf(),
            final(self).market_id == old(self).market_id,
            final(self).price_scale == old(self).price_scale,
            final(self).yes_state().spec == old(self).yes_state().spec,
            final(self).no_state().spec == old(self).no_state().spec,
            ({
                let t = decode_symbol_spec(old(cmd).symbol).1;
                let res = cancel_result(old(self).state_of(t), old(cmd).order_id, old(cmd).uid);
                &&& final(self).state_of(t) == res.0
                &&& final(self).state_of(complement_of(t)) == old(self).state_of(complement_of(t))
                &&& r == (if res.1 is Some {
                    CommandResultCode::Success
                } else {
                    CommandResultCode::MatchingUnknownOrderId
                })
            }),
            *final(cmd) == *old(cmd),
    {
        let (_, token_type) = OrderConverter::decode_symbol_id(cmd.symbol);
        match token_type {
            TokenType::YES => self.yes_book.cancel_order(cmd),
            TokenType::NO => self.no_book.cancel_order(cmd),
        }
    }

    /// The first `depth` price levels of both sides of token `token_type`'s book.
    pub fn get_l2_data(&self, token_type: TokenType, depth: usize) -> (r: L2MarketData)
        requires
            self.wf(),
        ensures
            l2_side(r.ask_prices@, r.ask_volumes@, self.state_of(token_type).asks, depth as int),
            l2_side(r.bid_prices@, r.bid_volumes@, self.state_of(token_type).bids, depth as int),
    {
        let book = match token_type {
            TokenType::YES => &self.yes_book,
            TokenType::NO => &self.no_book,
        };
        book.get_l2_data(depth)
    }

    /// A snapshot of both books, with the current Unix time (see
    /// `snapshot_at`), the state checksum, and the given event sequence
    /// number and log offset.
    pub fn take_snapshot(&self, event_sequence: u64, wal_offset: u64) -> (r: UnifiedOrderBookSnapshot)
        requires
            self.wf(),
        ensures
            r.wf(),
            r.yes_book_snapshot@ == self.yes_state(),
            r.no_book_snapshot@ == self.no_state(),
            r.checksum == state_checksum(self.market_id, self.yes_state(), self.no_state()),
            r.event_sequence == event_sequence,
            r.wal_offset == wal_offset,
    {
        let reading = read_clock();
        self.snapshot_at(event_sequence, wal_offset, reading)
    }

    /// A snapshot of both books taken when the clock read `since_epoch_secs`
    /// seconds past the Unix epoch (`None`: before the epoch), with the
    /// state checksum and the given event sequence number and log offset.
    pub fn snapshot_at(&self, event_sequence: u64, wal_offset: u64, since_epoch_secs: Option<u64>) -> (r: UnifiedOrderBookSnapshot)
        requires
            self.wf(),
        ensures
            r.wf(),
            r.yes_book_snapshot@ == self.yes_state(),
            r.no_book_snapshot@ == self.no_state(),
            r.timestamp == timestamp_of_reading(since_epoch_secs),
            r.checksum == state_checksum(self.market_id, self.yes_state(), self.no_state()),
            r.event_sequence == event_sequence,
            r.wal_offset == wal_offset,
    {
        let yes_book_snapshot = self.yes_book.clone();
        let no_book_snapshot = self.no_book.clone();
        let checksum = self.calculate_checksum();
        let timestamp = unix_timestamp(since_epoch_secs);
        UnifiedOrderBookSnapshot {
            yes_book_snapshot,
            no_book_snapshot,
            timestamp,
            checksum,
            event_sequence,
            wal_offset,
        }
    }

    /// Replaces both books with the snapshot's when the checksum of this
    /// market's id and the snapshot's books equals the stored checksum;
    /// otherwise fails with `ChecksumMismatch` and changes nothing.
    pub fn restore_snapshot(&mut self, snapshot: UnifiedOrderBookSnapshot) -> (r: Result<(), PredictionError>)
        requires
            old(self).wf(),
            snapshot.wf(),
        ensures
            final(self).wf(),
            ({
                let got = state_checksum(
                    old(self).market_id,
                    snapshot.yes_book_snapshot@,
                    snapshot.no_book_snapshot@,
                );
                if got == snapshot.checksum {
                    &&& r is Ok
                    &&& final(self).yes_state() == snapshot.yes_book_snapshot@
                    &&& final(self).no_state() == snapshot.no_book_snapshot@
                    &&& final(self).market_id == old(self).market_id
                    &&& final(self).price_scale == old(self).price_scale
                } else {
                    &&& r == Err::<(), PredictionError>(
                        PredictionError::ChecksumMismatch { expected: snapshot.checksum, got },
                    )
                    &&& *final(self) == *old(self)
                }
            }),
    {
        let calculated = self.calculate_checksum_from_snapshot(&snapshot);
        if calculated != snapshot.checksum {
            return Err(PredictionError::ChecksumMismatch { expected: snapshot.checksum, got: calculated });
        }
        self.yes_book = snapshot.yes_book_snapshot;
        self.no_book = snapshot.no_book_snapshot;
        Ok(())
    }

    /// Checksum of the current state.
    fn calculate_checksum(&self) -> (r: u64)
        requires
            self.wf(),
        ensures
            r == state_checksum(self.market_id, self.yes_state(), self.no_state()),
    {
        checksum_of(self.market_id, &self.yes_book, &self.no_book)
    }

    /// Checksum of this market's id with the snapshot's books.
    fn calculate_checksum_from_snapshot(&self, snapshot: &UnifiedOrderBookSnapshot) -> (r: u64)
        requires
            snapshot.wf(),
        ensures
            r == state_checksum(self.market_id, snapshot.yes_book_snapshot@, snapshot.no_book_snapshot@),
    {
        checksum_of(self.market_id, &snapshot.yes_book_snapshot, &snapshot.no_book_snapshot)
    }

    /// Whether the YES asks outweigh the NO bids by more than half: with
    /// `va` the YES ask total and `vb` the NO bid total, `va > vb` and
    /// `(va - vb) / (va + 1) > 1/2`.
    pub fn volume_imbalanced(&self) -> (r: bool)
        requires
            self.wf(),
        ensures
            r == volume_imbalanced(self.yes_state(), self.no_state()),
    {
        let yes_ask_vol = self.yes_book.get_total_ask_volume();
        let no_bid_vol = self.no_book.get_total_bid_volume();
        if yes_ask_vol > no_bid_vol {
            let excess = yes_ask_vol as i128 - no_bid_vol as i128;
            2 * excess > yes_ask_vol as i128 + 1
        } else {
            false
        }
    }

    /// Whether the best YES ask and the best NO bid both exist and their
    /// prices add up to more than 1000 away from `PRICE_SCALE`.
    pub fn best_prices_misaligned(&self) -> (r: bool)
        requires
            self.wf(),
        ensures
            r == best_prices_misaligned(self.yes_state(), self.no_state()),
            r == {
                let asks = self.yes_state().asks;
                let bids = self.no_state().bids;
                &&& asks.len() > 0
                &&& bids.len() > 0
                &&& (asks[0].price + bids[0].price > PRICE_SCALE + 1000 || asks[0].price + bids[0].price
                    < PRICE_SCALE - 1000)
            },
    {
        proof {
            lemma_best_prices_from_orders(self.yes_state(), self.no_state());
        }
        let yes_l2 = self.yes_book.get_l2_data(10);
        let no_l2 = self.no_book.get_l2_data(10);
        if yes_l2.ask_prices.len() > 0 && no_l2.bid_prices.len() > 0 {
            let price_sum = yes_l2.ask_prices[0] as i128 + no_l2.bid_prices[0] as i128;
            price_sum > PRICE_SCALE as i128 + 1000 || price_sum < PRICE_SCALE as i128 - 1000
        } else {
            false
        }
    }

    /// Checks that the two books fit together: `Ok(false)` when the YES asks
    /// outweigh the NO bids (`volume_imbalanced`) or the best YES ask and
    /// best NO bid are not close to complementary (`best_prices_misaligned`),
    /// `Ok(true)` otherwise. The books are not changed.
    pub fn verify_cross_book_consistency(&self) -> (r: Result<bool, PredictionError>)
        requires
            self.wf(),
        ensures
            r == Ok::<bool, PredictionError>(!books_inconsistent(self.yes_state(), self.no_state())),
    {
        let imbalanced = self.volume_imbalanced();
        let misaligned = self.best_prices_misaligned();
        Ok(!(imbalanced || misaligned))
    }
}

/// The matching conditions of the three kinds of trade. Placing `cmd`
/// produces its normal trades first, each at a price that crosses the
/// order's limit (a bid pays at most its price, an ask gets at least its
/// price); the trades after them come from the other book and satisfy the
/// mint condition for a bid (`price + counter_price >= price_scale`) and
/// the merge condition for an ask (`price + counter_price <= price_scale`).
/// All trades together never exceed the order's size.
pub proof fn lemma_cross_match_prices(own: BookState, other: BookState, cmd: OrderCommand, price_scale: i64)
    requires
        own.wf(),
        other.wf(),
        normal_leftover(own, cmd) > 0 ==> complement_fits(price_scale, cmd.price),
    ensures
        ({
            let res = cross_match(own, other, cmd, price_scale);
            let n = new_order_result(own, taker_of(cmd)).1;
            &&& n.len() <= res.2.len()
            &&& res.2.take(n.len() as int) == n
            &&& forall|j: int|
                #![trigger res.2[j]]
                0 <= j < n.len() ==> crosses(cmd.action, cmd.price, res.2[j].price)
            &&& forall|j: int|
                #![trigger res.2[j]]
                n.len() <= j < res.2.len() ==> (cmd.action == OrderAction::Bid ==> cmd.price
                    + res.2[j].price >= price_scale) && (cmd.action == OrderAction::Ask
                    ==> cmd.price + res.2[j].price <= price_scale)
            &&& 0 <= events_volume(res.2) <= if cmd.size > 0 { cmd.size as int } else { 0 }
        }),
{
    let t = taker_of(cmd);
    let opp = opposite(t.action);
    let m = match_side(own.side(opp), t.action, t.price, t.size as int, t.reserve_price);
    let _ = lemma_match_side(own.side(opp), t.action, t.price, t.size as int, t.reserve_price);
    let res = cross_match(own, other, cmd, price_scale);
    let n = new_order_result(own, t).1;
    assert(n == m.0);
    let remaining = normal_leftover(own, cmd);
    if remaining > 0 {
        let ct = counter_taker(cmd, price_scale, remaining);
        let copp = opposite(ct.action);
        let cm = match_side(other.side(copp), ct.action, ct.price, ct.size as int, ct.reserve_price);
        let _ = lemma_match_side(other.side(copp), ct.action, ct.price, ct.size as int, ct.reserve_price);
        let c = new_order_result(other, ct).1;
        assert(c == cm.0);
        assert(res.2 == n + c);
        assert(res.2.take(n.len() as int) =~= n);
        assert forall|j: int| #![trigger res.2[j]] 0 <= j < n.len() implies crosses(
            cmd.action,
            cmd.price,
            res.2[j].price,
        ) by {
            assert(res.2[j] == n[j]);
        }
        assert forall|j: int| #![trigger res.2[j]] n.len() <= j < res.2.len() implies (cmd.action
            == OrderAction::Bid ==> cmd.price + res.2[j].price >= price_scale) && (cmd.action
            == OrderAction::Ask ==> cmd.price + res.2[j].price <= price_scale) by {
            assert(res.2[j] == c[j - n.len()]);
            assert(crosses(ct.action, ct.price, c[j - n.len()].price));
        }
        lemma_events_volume_concat(n, c);
    } else {
        assert(res.2.take(n.len() as int) =~= n);
        assert forall|j: int| #![trigger res.2[j]] 0 <= j < n.len() implies crosses(
            cmd.action,
            cmd.price,
            res.2[j].price,
        ) by {
            assert(res.2[j] == n[j]);
        }
    }
}

/// The book of the other token never gains a resting order: the mirror
/// order is immediate-or-cancel, so placing `cmd` leaves the other book's
/// side of the mirror order as it was, and neither of its side totals grows.
/// Only the book of `cmd`'s own token can gain what is left of `cmd`.
pub proof fn lemma_mirror_never_rests(own: BookState, other: BookState, cmd: OrderCommand, price_scale: i64)
    requires
        own.wf(),
        other.wf(),
    ensures
        ({
            let res = cross_match(own, other, cmd, price_scale);
            &&& res.1.spec == other.spec
            &&& res.1.side(opposite(cmd.action)) == other.side(opposite(cmd.action))
            &&& sum_sizes(res.1.asks) <= sum_sizes(other.asks)
            &&& sum_sizes(res.1.bids) <= sum_sizes(other.bids)
        }),
{
    let remaining = normal_leftover(own, cmd);
    if remaining > 0 {
        let ct = counter_taker(cmd, price_scale, remaining);
        let copp = opposite(ct.action);
        assert(copp == cmd.action);
        assert(!rests(other, ct));
        let _ = lemma_match_side(other.side(copp), ct.action, ct.price, ct.size as int, ct.reserve_price);
    }
}

/// The checksum depends on nothing but the market id, the side totals of
/// both books and their numbers of price levels: states that agree on
/// these have the same checksum.
pub proof fn lemma_checksum_summary(market_id: u64, yes1: BookState, no1: BookState, yes2: BookState, no2: BookState)
    requires
        sum_sizes(yes1.asks) == sum_sizes(yes2.asks),
        sum_sizes(yes1.bids) == sum_sizes(yes2.bids),
        sum_sizes(no1.asks) == sum_sizes(no2.asks),
        sum_sizes(no1.bids) == sum_sizes(no2.bids),
        levels(yes1.asks).len() == levels(yes2.asks).len(),
        levels(yes1.bids).len() == levels(yes2.bids).len(),
        levels(no1.asks).len() == levels(no2.asks).len(),
        levels(no1.bids).len() == levels(no2.bids).len(),
    ensures
        state_checksum(market_id, yes1, no1) == state_checksum(market_id, yes2, no2),
{
    assert(checksum_writes(market_id, yes1, no1) =~= checksum_writes(market_id, yes2, no2));
}

/// The price test of the consistency check looks at the best prices only:
/// the prices are misaligned exactly when there is a YES ask and a NO bid
/// and the first YES ask, the lowest ask price, plus the first NO bid, the
/// highest bid price, is more than 1000 away from `PRICE_SCALE`.
pub proof fn lemma_best_prices_from_orders(yes: BookState, no: BookState)
    requires
        yes.wf(),
        no.wf(),
    ensures
        best_prices_misaligned(yes, no) <==> {
            &&& yes.asks.len() > 0
            &&& no.bids.len() > 0
            &&& (yes.asks[0].price + no.bids[0].price > PRICE_SCALE + 1000 || yes.asks[0].price
                + no.bids[0].price < PRICE_SCALE - 1000)
        },
        forall|i: int| 0 <= i < yes.asks.len() ==> yes.asks[0].price <= #[trigger] yes.asks[i].price,
        forall|i: int| 0 <= i < no.bids.len() ==> no.bids[0].price >= #[trigger] no.bids[i].price,
{
    lemma_levels_aggregate(yes.asks, OrderAction::Ask);
    lemma_levels_aggregate(no.bids, OrderAction::Bid);
    assert forall|i: int| 0 <= i < yes.asks.len() implies yes.asks[0].price <= #[trigger] yes.asks[i].price by {
        if i > 0 {
            assert(at_least_as_good(OrderAction::Ask, yes.asks[0].price, yes.asks[i].price));
        }
    }
    assert forall|i: int| 0 <= i < no.bids.len() implies no.bids[0].price >= #[trigger] no.bids[i].price by {
        if i > 0 {
            assert(at_least_as_good(OrderAction::Bid, no.bids[0].price, no.bids[i].price));
        }
    }
}

/// Every trade of placing `cmd` names the resting order it filled: the
/// normal trades fill the orders of the own book's opposite side in
/// priority order, the mirror trades those of the other book's side of
/// `cmd`'s action, and each carries the filled order's id, owner and price.
pub proof fn lemma_cross_trades_name_makers(own: BookState, other: BookState, cmd: OrderCommand, price_scale: i64)
    ensures
        ({
            let res = cross_match(own, other, cmd, price_scale);
            let n = new_order_result(own, taker_of(cmd)).1;
            let mine = own.side(opposite(cmd.action));
            let theirs = other.side(cmd.action);
            &&& n.len() <= res.2.len()
            &&& forall|j: int|
                0 <= j < n.len() ==> {
                    &&& j < mine.len()
                    &&& (#[trigger] res.2[j]).matched_order_id == mine[j].order_id
                    &&& res.2[j].matched_order_uid == mine[j].uid
                    &&& res.2[j].price == mine[j].price
                }
            &&& forall|j: int|
                n.len() <= j < res.2.len() ==> {
                    &&& j - n.len() < theirs.len()
                    &&& (#[trigger] res.2[j]).matched_order_id == theirs[j - n.len()].order_id
                    &&& res.2[j].matched_order_uid == theirs[j - n.len()].uid
                    &&& res.2[j].price == theirs[j - n.len()].price
                }
        }),
{
    let t = taker_of(cmd);
    let res = cross_match(own, other, cmd, price_scale);
    let n = new_order_result(own, t).1;
    lemma_trades_name_makers(own.side(opposite(t.action)), t.action, t.price, t.size as int, t.reserve_price);
    let remaining = normal_leftover(own, cmd);
    if remaining > 0 {
        let ct = counter_taker(cmd, price_scale, remaining);
        assert(opposite(ct.action) == cmd.action);
        lemma_trades_name_makers(other.side(cmd.action), ct.action, ct.price, ct.size as int, ct.reserve_price);
        let c = new_order_result(other, ct).1;
        assert(res.2 == n + c);
        assert forall|j: int| 0 <= j < n.len() implies res.2[j] == n[j] by {}
        assert forall|j: int| n.len() <= j < res.2.len() implies res.2[j] == c[j - n.len()] by {}
    }
}

/// A snapshot restores what it was taken of: a snapshot as `take_snapshot`
/// makes it of market `b` passes the checksum test of `restore_snapshot` in
/// any market `c` with the same id, so restoring succeeds and gives `c`
/// the book states of `b`.
pub proof fn lemma_snapshot_round_trip(b: UnifiedOrderBook, snapshot: UnifiedOrderBookSnapshot, c: UnifiedOrderBook)
    requires
        b.wf(),
        snapshot.yes_book_snapshot@ == b.yes_state(),
        snapshot.no_book_snapshot@ == b.no_state(),
        snapshot.checksum == state_checksum(b.market_id, b.yes_state(), b.no_state()),
        c.market_id == b.market_id,
    ensures
        state_checksum(c.market_id, snapshot.yes_book_snapshot@, snapshot.no_book_snapshot@)
            == snapshot.checksum,
{
}

/// The complementary price of the complementary price is the price, and a
/// price is complementary to its complementary price.
pub proof fn lemma_complement_price(price_scale: i64, price: i64)
    requires
        complement_fits(price_scale, price),
    ensures
        complement_fits(price_scale, (price_scale - price) as i64),
        price_scale - (price_scale - price) == price,
        price + (price_scale - price) == price_scale,
{
}

} // verus!
