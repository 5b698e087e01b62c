//! A price-time priority limit order book for one symbol.
//!
//! Asks are kept lowest price first and bids highest price first; within a
//! price, older orders come first. An incoming order trades against the
//! opposite side while prices cross; a good-till-cancel order then rests with
//! what is left, an immediate-or-cancel order drops it.

use vstd::prelude::*;
use crate::api::{
    CommandResultCode, CoreSymbolSpecification, L2MarketData, MatcherTradeEvent, OrderAction,
    OrderCommand, OrderId, OrderType, Price, Size, UserId,
};

verus! {

/// An order waiting in the book.
#[derive(Clone, Copy, Debug, PartialEq, Eq, Structural)]
pub struct RestingOrder {
    pub order_id: OrderId,
    pub uid: UserId,
    pub price: Price,
    /// Quantity still open; always positive while the order rests.
    pub size: Size,
    pub reserve_price: Price,
    pub timestamp: i64,
}

/// The fields of a command that the book reads when it places an order.
pub struct TakerOrder {
    pub order_id: OrderId,
    pub uid: UserId,
    pub action: OrderAction,
    pub order_type: OrderType,
    pub price: Price,
    pub reserve_price: Price,
    pub size: Size,
    pub timestamp: i64,
}

/// The order a command places.
pub open spec fn taker_of(cmd: OrderCommand) -> TakerOrder {
    TakerOrder {
        order_id: cmd.order_id,
        uid: cmd.uid,
        action: cmd.action,
        order_type: cmd.order_type,
        price: cmd.price,
        reserve_price: cmd.reserve_price,
        size: cmd.size,
        timestamp: cmd.timestamp,
    }
}

/// Abstract state of a book: its symbol and both sides, best first.
pub struct BookState {
    pub spec: CoreSymbolSpecification,
    pub asks: Seq<RestingOrder>,
    pub bids: Seq<RestingOrder>,
}

/// On side `side`, price `a` has priority over or equals price `b`.
pub open spec fn at_least_as_good(side: OrderAction, a: Price, b: Price) -> bool {
    match side {
        OrderAction::Ask => a <= b,
        OrderAction::Bid => a >= b,
    }
}

/// A taker on side `taker` with limit `limit` trades with a maker at `maker_price`.
pub open spec fn crosses(taker: OrderAction, limit: Price, maker_price: Price) -> bool {
    match taker {
        OrderAction::Bid => maker_price <= limit,
        OrderAction::Ask => maker_price >= limit,
    }
}

/// The other side.
pub open spec fn opposite(side: OrderAction) -> OrderAction {
    match side {
        OrderAction::Ask => OrderAction::Bid,
        OrderAction::Bid => OrderAction::Ask,
    }
}

/// Orders on side `side` are in priority order.
pub open spec fn side_sorted(s: Seq<RestingOrder>, side: OrderAction) -> bool {
    forall|i: int, j: int|
        0 <= i < j < s.len() ==> at_least_as_good(side, #[trigger] s[i].price, #[trigger] s[j].price)
}

/// Every resting order has a positive open size.
pub open spec fn sizes_positive(s: Seq<RestingOrder>) -> bool {
    forall|i: int| 0 <= i < s.len() ==> #[trigger] s[i].size > 0
}

/// Total open size of a side.
pub open spec fn sum_sizes(s: Seq<RestingOrder>) -> int
    decreases s.len(),
{
    if s.len() == 0 {
        0
    } else {
        sum_sizes(s.drop_last()) + s.last().size
    }
}

/// No order id occurs twice within `s`.
pub open spec fn ids_distinct(s: Seq<RestingOrder>) -> bool {
    forall|i: int, j: int|
        0 <= i < s.len() && 0 <= j < s.len() && i != j ==> #[trigger] s[i].order_id
            != #[trigger] s[j].order_id
}

/// No order id occurs in both `a` and `b`.
pub open spec fn ids_disjoint(a: Seq<RestingOrder>, b: Seq<RestingOrder>) -> bool {
    forall|i: int, j: int|
        0 <= i < a.len() && 0 <= j < b.len() ==> #[trigger] a[i].order_id != #[trigger] b[j].order_id
}

/// Some order on `s` has id `id`.
pub open spec fn side_has_id(s: Seq<RestingOrder>, id: OrderId) -> bool {
    exists|i: int| 0 <= i < s.len() && #[trigger] s[i].order_id == id
}

/// The best bid is below the best ask (when both exist).
pub open spec fn not_crossed(asks: Seq<RestingOrder>, bids: Seq<RestingOrder>) -> bool {
    asks.len() > 0 && bids.len() > 0 ==> bids[0].price < asks[0].price
}

impl BookState {
    /// Both sides are in priority order, hold positive sizes, total at most
    /// `i64::MAX` each, no order id occurs twice in the book, and the book is
    /// not crossed.
    pub open spec fn wf(self) -> bool {
        &&& side_sorted(self.asks, OrderAction::Ask)
        &&& side_sorted(self.bids, OrderAction::Bid)
        &&& sizes_positive(self.asks)
        &&& sizes_positive(self.bids)
        &&& sum_sizes(self.asks) <= i64::MAX
        &&& sum_sizes(self.bids) <= i64::MAX
        &&& ids_distinct(self.asks)
        &&& ids_distinct(self.bids)
        &&& ids_disjoint(self.asks, self.bids)
        &&& not_crossed(self.asks, self.bids)
    }

    /// The side that holds orders of side `side`.
    pub open spec fn side(self, side: OrderAction) -> Seq<RestingOrder> {
        match side {
            OrderAction::Ask => self.asks,
            OrderAction::Bid => self.bids,
        }
    }

    /// `self` with side `side` replaced by `s`.
    pub open spec fn with_side(self, side: OrderAction, s: Seq<RestingOrder>) -> BookState {
        match side {
            OrderAction::Ask => BookState { asks: s, ..self },
            OrderAction::Bid => BookState { bids: s, ..self },
        }
    }

    /// Some order in the book has id `id`.
    pub open spec fn has_order(self, id: OrderId) -> bool {
        side_has_id(self.asks, id) || side_has_id(self.bids, id)
    }
}

/// The trade of `size` against `maker`.
pub open spec fn trade_with(size: int, maker: RestingOrder, hold: Price) -> MatcherTradeEvent {
    MatcherTradeEvent {
        size: size as i64,
        price: maker.price,
        matched_order_id: maker.order_id,
        matched_order_uid: maker.uid,
        bidder_hold_price: hold,
    }
}

/// `o` with open size `size`.
pub open spec fn with_size(o: RestingOrder, size: int) -> RestingOrder {
    RestingOrder { size: size as i64, ..o }
}

/// Matching `remaining` of a taker on side `taker` with limit `limit` against
/// the opposite side `side`, best order first: the trades, what is left of
/// that side, and the taker's unfilled quantity.
pub open spec fn match_side(
    side: Seq<RestingOrder>,
    taker: OrderAction,
    limit: Price,
    remaining: int,
    hold: Price,
) -> (Seq<MatcherTradeEvent>, Seq<RestingOrder>, int)
    decreases side.len(),
{
    if remaining <= 0 || side.len() == 0 || !crosses(taker, limit, side[0].price) {
        (seq![], side, remaining)
    } else if side[0].size <= remaining {
        let rest = match_side(side.drop_first(), taker, limit, remaining - side[0].size, hold);
        (seq![trade_with(side[0].size as int, side[0], hold)] + rest.0, rest.1, rest.2)
    } else {
        (
            seq![trade_with(remaining, side[0], hold)],
            side.update(0, with_size(side[0], side[0].size - remaining)),
            0,
        )
    }
}

/// Where a new order at `price` goes on side `side`: after every order whose
/// price is at least as good (price, then time priority).
pub open spec fn insert_index(s: Seq<RestingOrder>, side: OrderAction, price: Price) -> int
    decreases s.len(),
{
    if s.len() == 0 {
        0
    } else if at_least_as_good(side, s.last().price, price) {
        s.len() as int
    } else {
        insert_index(s.drop_last(), side, price)
    }
}

/// The resting order that an incoming order leaves with `size` open.
pub open spec fn resting_from(t: TakerOrder, size: int) -> RestingOrder {
    RestingOrder {
        order_id: t.order_id,
        uid: t.uid,
        price: t.price,
        size: size as i64,
        reserve_price: t.reserve_price,
        timestamp: t.timestamp,
    }
}

/// Matching `t` against the opposite side of `book`.
pub open spec fn match_taker(book: BookState, t: TakerOrder) -> (Seq<MatcherTradeEvent>, Seq<RestingOrder>, int) {
    match_side(book.side(opposite(t.action)), t.action, t.price, t.size as int, t.reserve_price)
}

/// `book` after `t` has traded, before anything rests.
pub open spec fn matched_book(book: BookState, t: TakerOrder) -> BookState {
    book.with_side(opposite(t.action), match_taker(book, t).1)
}

/// What is left of `t` after trading rests in the book: the order is
/// good-till-cancel, something is left, no order with its id is in the
/// book, and its side's total stays within `i64::MAX`.
pub open spec fn rests(book: BookState, t: TakerOrder) -> bool {
    let m = match_taker(book, t);
    let book1 = matched_book(book, t);
    &&& t.order_type == OrderType::Gtc
    &&& m.2 > 0
    &&& !book1.has_order(t.order_id)
    &&& sum_sizes(book1.side(t.action)) + m.2 <= i64::MAX
}

/// The book after placing `t`, and the trades produced: `t` trades against
/// the opposite side, and what is left rests on its own side, after every
/// order at least as good, when `rests` holds.
pub open spec fn new_order_result(book: BookState, t: TakerOrder) -> (BookState, Seq<MatcherTradeEvent>) {
    let m = match_taker(book, t);
    let book1 = matched_book(book, t);
    let own = book1.side(t.action);
    if rests(book, t) {
        let k = insert_index(own, t.action, t.price);
        (book1.with_side(t.action, own.insert(k, resting_from(t, m.2))), m.0)
    } else {
        (book1, m.0)
    }
}

/// Index of the order with id `id` on `s`, or -1.
pub open spec fn index_of_id(s: Seq<RestingOrder>, id: OrderId) -> int
    decreases s.len(),
{
    if s.len() == 0 {
        -1
    } else if index_of_id(s.drop_last(), id) >= 0 {
        index_of_id(s.drop_last(), id)
    } else if s.last().order_id == id {
        s.len() - 1
    } else {
        -1
    }
}

/// The book after cancelling order `id` of user `uid`, and the side the
/// order was on; `None` when no such order of that user rests.
pub open spec fn cancel_result(book: BookState, id: OrderId, uid: UserId) -> (BookState, Option<OrderAction>) {
    let b = index_of_id(book.bids, id);
    let a = index_of_id(book.asks, id);
    if b >= 0 {
        if book.bids[b].uid == uid {
            (BookState { bids: book.bids.remove(b), ..book }, Some(OrderAction::Bid))
        } else {
            (book, None)
        }
    } else if a >= 0 {
        if book.asks[a].uid == uid {
            (BookState { asks: book.asks.remove(a), ..book }, Some(OrderAction::Ask))
        } else {
            (book, None)
        }
    } else {
        (book, None)
    }
}

/// Price levels of a side, best first: each distinct price with the total
/// open size at that price.
pub open spec fn levels(s: Seq<RestingOrder>) -> Seq<(Price, int)>
    decreases s.len(),
{
    if s.len() == 0 {
        seq![]
    } else {
        let l = levels(s.drop_last());
        let o = s.last();
        if l.len() > 0 && l.last().0 == o.price {
            l.update(l.len() - 1, (o.price, l.last().1 + o.size))
        } else {
            l.push((o.price, o.size as int))
        }
    }
}

/// Total size of a run of trades.
pub open spec fn events_volume(evs: Seq<MatcherTradeEvent>) -> int
    decreases evs.len(),
{
    if evs.len() == 0 {
        0
    } else {
        events_volume(evs.drop_last()) + evs.last().size
    }
}

/// `r` is what is left of side `s` once its first `k` orders are gone and
/// the next one has possibly been partly filled.
pub open spec fn trimmed_suffix(r: Seq<RestingOrder>, s: Seq<RestingOrder>, k: int) -> bool {
    &&& 0 <= k <= s.len()
    &&& r.len() == s.len() - k
    &&& forall|i: int|
        0 <= i < r.len() ==> {
            &&& #[trigger] r[i] == with_size(s[i + k], r[i].size as int)
            &&& 0 < r[i].size <= s[i + k].size
        }
}

// ---------------------------------------------------------------------------
// Lemmas
// ---------------------------------------------------------------------------

/// The volume of a concatenation of trade runs is the sum of their volumes.
pub proof fn lemma_events_volume_concat(a: Seq<MatcherTradeEvent>, b: Seq<MatcherTradeEvent>)
    ensures
        events_volume(a + b) == events_volume(a) + events_volume(b),
    decreases b.len(),
{
    if b.len() == 0 {
        assert(a + b =~= a);
    } else {
        lemma_events_volume_concat(a, b.drop_last());
        assert((a + b).drop_last() =~= a + b.drop_last());
    }
}

/// The volume of a single trade is its size.
pub proof fn lemma_events_volume_single(e: MatcherTradeEvent)
    ensures
        events_volume(seq![e]) == e.size,
{
    assert(seq![e].drop_last() =~= Seq::<MatcherTradeEvent>::empty());
    reveal_with_fuel(events_volume, 2);
}

/// A prefix of a run of positive trades has at most the run's volume.
pub proof fn lemma_events_volume_prefix(evs: Seq<MatcherTradeEvent>, i: int)
    requires
        0 <= i <= evs.len(),
        forall|j: int| 0 <= j < evs.len() ==> #[trigger] evs[j].size > 0,
    ensures
        0 <= events_volume(evs.take(i)) <= events_volume(evs),
    decreases evs.len(),
{
    if i < evs.len() {
        lemma_events_volume_prefix(evs.drop_last(), i);
        assert(evs.drop_last().take(i) =~= evs.take(i));
    } else {
        assert(evs.take(i) =~= evs);
        if evs.len() > 0 {
            lemma_events_volume_prefix(evs.drop_last(), i - 1);
            assert(evs.drop_last().take(i - 1) =~= evs.drop_last());
        }
    }
}

/// What matching does to a side and to the taker: the side loses a prefix
/// and possibly part of the next order, every trade is positive, crosses
/// the limit and carries the taker's reserve price, and the traded volume
/// is what the taker lost and what the side lost.
pub proof fn lemma_match_side(
    side: Seq<RestingOrder>,
    taker: OrderAction,
    limit: Price,
    remaining: int,
    hold: Price,
) -> (k: int)
    requires
        sizes_positive(side),
        remaining <= i64::MAX,
    ensures
        ({
            let m = match_side(side, taker, limit, remaining, hold);
            &&& trimmed_suffix(m.1, side, k)
            &&& remaining <= 0 ==> m.2 == remaining && m.0.len() == 0 && k == 0 && m.1 == side
            &&& remaining > 0 ==> 0 <= m.2 <= remaining
            &&& m.2 > 0 ==> m.1.len() == 0 || !crosses(taker, limit, m.1[0].price)
            &&& events_volume(m.0) == remaining - m.2
            &&& sum_sizes(m.1) == sum_sizes(side) - (remaining - m.2)
            &&& forall|j: int|
                #![trigger m.0[j]]
                0 <= j < m.0.len() ==> {
                    &&& m.0[j].size > 0
                    &&& crosses(taker, limit, m.0[j].price)
                    &&& m.0[j].bidder_hold_price == hold
                }
        }),
    decreases side.len(),
{
    let m = match_side(side, taker, limit, remaining, hold);
    if remaining <= 0 || side.len() == 0 || !crosses(taker, limit, side[0].price) {
        assert(trimmed_suffix(m.1, side, 0)) by {
            assert forall|i: int| 0 <= i < m.1.len() implies #[trigger] m.1[i] == with_size(
                side[i + 0],
                m.1[i].size as int,
            ) by {
                assert(side[i] == with_size(side[i], side[i].size as int));
            }
        }
        reveal_with_fuel(events_volume, 1);
        0
    } else if side[0].size <= remaining {
        let rest_side = side.drop_first();
        let r = match_side(rest_side, taker, limit, remaining - side[0].size, hold);
        let k0 = lemma_match_side(rest_side, taker, limit, remaining - side[0].size, hold);
        let ev = trade_with(side[0].size as int, side[0], hold);
        lemma_events_volume_concat(seq![ev], r.0);
        lemma_events_volume_single(ev);
        lemma_sum_drop_first(side);
        assert(trimmed_suffix(m.1, side, k0 + 1)) by {
            assert forall|i: int| 0 <= i < m.1.len() implies {
                &&& #[trigger] m.1[i] == with_size(side[i + (k0 + 1)], m.1[i].size as int)
                &&& 0 < m.1[i].size <= side[i + (k0 + 1)].size
            } by {
                assert(rest_side[i + k0] == side[i + (k0 + 1)]);
            }
        }
        assert forall|j: int| #![trigger m.0[j]] 0 <= j < m.0.len() implies {
            &&& m.0[j].size > 0
            &&& crosses(taker, limit, m.0[j].price)
            &&& m.0[j].bidder_hold_price == hold
        } by {
            if j > 0 {
                assert(m.0[j] == r.0[j - 1]);
            }
        }
        k0 + 1
    } else {
        let upd = with_size(side[0], side[0].size - remaining);
        lemma_events_volume_single(trade_with(remaining, side[0], hold));
        lemma_sum_update(side, 0, upd);
        assert(trimmed_suffix(m.1, side, 0)) by {
            assert forall|i: int| 0 <= i < m.1.len() implies {
                &&& #[trigger] m.1[i] == with_size(side[i + 0], m.1[i].size as int)
                &&& 0 < m.1[i].size <= side[i + 0].size
            } by {
                if i > 0 {
                    assert(side[i] == with_size(side[i], side[i].size as int));
                }
            }
        }
        0
    }
}

/// A trimmed suffix keeps the side's order, positivity and distinct ids,
/// and holds no id that the side did not hold.
pub proof fn lemma_trimmed_suffix(r: Seq<RestingOrder>, s: Seq<RestingOrder>, k: int, side: OrderAction)
    requires
        trimmed_suffix(r, s, k),
    ensures
        side_sorted(s, side) ==> side_sorted(r, side),
        sizes_positive(r),
        ids_distinct(s) ==> ids_distinct(r),
        forall|id: OrderId| side_has_id(r, id) ==> side_has_id(s, id),
        forall|other: Seq<RestingOrder>| ids_disjoint(s, other) ==> ids_disjoint(r, other),
        forall|other: Seq<RestingOrder>| ids_disjoint(other, s) ==> ids_disjoint(other, r),
{
    if side_sorted(s, side) {
        assert forall|i: int, j: int| 0 <= i < j < r.len() implies at_least_as_good(
            side,
            #[trigger] r[i].price,
            #[trigger] r[j].price,
        ) by {
            assert(r[i].price == s[i + k].price);
            assert(r[j].price == s[j + k].price);
            assert(at_least_as_good(side, s[i + k].price, s[j + k].price));
        }
    }
    if ids_distinct(s) {
        assert forall|i: int, j: int|
            0 <= i < r.len() && 0 <= j < r.len() && i != j implies #[trigger] r[i].order_id
            != #[trigger] r[j].order_id by {
            assert(r[i].order_id == s[i + k].order_id);
            assert(r[j].order_id == s[j + k].order_id);
        }
    }
    assert forall|id: OrderId| side_has_id(r, id) implies side_has_id(s, id) by {
        let i = choose|i: int| 0 <= i < r.len() && #[trigger] r[i].order_id == id;
        assert(s[i + k].order_id == id);
    }
    assert forall|other: Seq<RestingOrder>| ids_disjoint(s, other) implies ids_disjoint(r, other) by {
        assert forall|i: int, j: int| 0 <= i < r.len() && 0 <= j < other.len() implies #[trigger] r[i].order_id
            != #[trigger] other[j].order_id by {
            assert(r[i].order_id == s[i + k].order_id);
        }
    }
    assert forall|other: Seq<RestingOrder>| ids_disjoint(other, s) implies ids_disjoint(other, r) by {
        assert forall|i: int, j: int| 0 <= i < other.len() && 0 <= j < r.len() implies #[trigger] other[i].order_id
            != #[trigger] r[j].order_id by {
            assert(r[j].order_id == s[j + k].order_id);
        }
    }
}

/// The total of a concatenation is the sum of the totals.
pub proof fn lemma_sum_concat(a: Seq<RestingOrder>, b: Seq<RestingOrder>)
    ensures
        sum_sizes(a + b) == sum_sizes(a) + sum_sizes(b),
    decreases b.len(),
{
    if b.len() == 0 {
        assert(a + b =~= a);
    } else {
        lemma_sum_concat(a, b.drop_last());
        assert((a + b).drop_last() =~= a + b.drop_last());
    }
}

/// The total of a side with positive sizes bounds each of its orders.
pub proof fn lemma_sum_positive(s: Seq<RestingOrder>)
    requires
        sizes_positive(s),
    ensures
        sum_sizes(s) >= 0,
        forall|i: int| 0 <= i < s.len() ==> #[trigger] s[i].size <= sum_sizes(s),
        s.len() > 0 ==> sum_sizes(s) > 0,
    decreases s.len(),
{
    if s.len() > 0 {
        lemma_sum_positive(s.drop_last());
        assert forall|i: int| 0 <= i < s.len() implies #[trigger] s[i].size <= sum_sizes(s) by {
            if i < s.len() - 1 {
                assert(s[i] == s.drop_last()[i]);
            }
        }
    }
}

/// The total of a single order is its size.
pub proof fn lemma_sum_single(o: RestingOrder)
    ensures
        sum_sizes(seq![o]) == o.size,
{
    assert(seq![o].drop_last() =~= Seq::<RestingOrder>::empty());
    reveal_with_fuel(sum_sizes, 2);
}

/// Removing the first order takes its size off the total.
pub proof fn lemma_sum_drop_first(s: Seq<RestingOrder>)
    requires
        s.len() > 0,
    ensures
        sum_sizes(s) == s[0].size + sum_sizes(s.drop_first()),
{
    lemma_sum_concat(seq![s[0]], s.drop_first());
    assert(seq![s[0]] + s.drop_first() =~= s);
    lemma_sum_single(s[0]);
}

/// Replacing an order changes the total by the difference of sizes.
pub proof fn lemma_sum_update(s: Seq<RestingOrder>, i: int, o: RestingOrder)
    requires
        0 <= i < s.len(),
    ensures
        sum_sizes(s.update(i, o)) == sum_sizes(s) - s[i].size + o.size,
{
    let pre = s.take(i);
    let post = s.skip(i + 1);
    lemma_sum_concat(pre, seq![s[i]]);
    lemma_sum_concat(pre + seq![s[i]], post);
    lemma_sum_concat(pre, seq![o]);
    lemma_sum_concat(pre + seq![o], post);
    assert(pre + seq![s[i]] + post =~= s);
    assert(pre + seq![o] + post =~= s.update(i, o));
    lemma_sum_single(s[i]);
    lemma_sum_single(o);
}

/// Inserting an order adds its size to the total.
pub proof fn lemma_sum_insert(s: Seq<RestingOrder>, i: int, o: RestingOrder)
    requires
        0 <= i <= s.len(),
    ensures
        sum_sizes(s.insert(i, o)) == sum_sizes(s) + o.size,
{
    let pre = s.take(i);
    let post = s.skip(i);
    lemma_sum_concat(pre, seq![o]);
    lemma_sum_concat(pre + seq![o], post);
    lemma_sum_concat(pre, post);
    assert(pre + post =~= s);
    assert(pre + seq![o] + post =~= s.insert(i, o));
    lemma_sum_single(o);
}

/// Removing an order takes its size off the total.
pub proof fn lemma_sum_remove(s: Seq<RestingOrder>, i: int)
    requires
        0 <= i < s.len(),
    ensures
        sum_sizes(s.remove(i)) == sum_sizes(s) - s[i].size,
{
    let pre = s.take(i);
    let post = s.skip(i + 1);
    lemma_sum_concat(pre, seq![s[i]]);
    lemma_sum_concat(pre + seq![s[i]], post);
    lemma_sum_concat(pre, post);
    assert(pre + seq![s[i]] + post =~= s);
    assert(pre + post =~= s.remove(i));
    lemma_sum_single(s[i]);
}

/// On a sorted side, the insertion point of a price splits the side into the
/// orders at least as good as the price and the orders strictly worse.
pub proof fn lemma_insert_index(s: Seq<RestingOrder>, side: OrderAction, price: Price)
    ensures
        0 <= insert_index(s, side, price) <= s.len(),
        forall|i: int|
            insert_index(s, side, price) <= i < s.len() ==> !at_least_as_good(
                side,
                #[trigger] s[i].price,
                price,
            ),
        side_sorted(s, side) ==> forall|i: int|
            0 <= i < insert_index(s, side, price) ==> at_least_as_good(
                side,
                #[trigger] s[i].price,
                price,
            ),
    decreases s.len(),
{
    if s.len() > 0 && !at_least_as_good(side, s.last().price, price) {
        lemma_insert_index(s.drop_last(), side, price);
        let k = insert_index(s, side, price);
        assert forall|i: int| k <= i < s.len() implies !at_least_as_good(
            side,
            #[trigger] s[i].price,
            price,
        ) by {
            if i < s.len() - 1 {
                assert(s[i] == s.drop_last()[i]);
            }
        }
        if side_sorted(s, side) {
            assert(side_sorted(s.drop_last(), side)) by {
                assert forall|i: int, j: int| 0 <= i < j < s.drop_last().len() implies at_least_as_good(
                    side,
                    #[trigger] s.drop_last()[i].price,
                    #[trigger] s.drop_last()[j].price,
                ) by {
                    assert(s.drop_last()[i] == s[i]);
                    assert(s.drop_last()[j] == s[j]);
                }
            }
            assert forall|i: int| 0 <= i < k implies at_least_as_good(
                side,
                #[trigger] s[i].price,
                price,
            ) by {
                assert(s[i] == s.drop_last()[i]);
            }
        }
    } else if s.len() > 0 {
        let k = s.len() as int;
        if side_sorted(s, side) {
            assert forall|i: int| 0 <= i < k implies at_least_as_good(
                side,
                #[trigger] s[i].price,
                price,
            ) by {
                if i < k - 1 {
                    assert(at_least_as_good(side, s[i].price, s[k - 1].price));
                }
            }
        }
    }
}

/// Inserting at the insertion point keeps a side sorted.
pub proof fn lemma_insert_sorted(s: Seq<RestingOrder>, side: OrderAction, o: RestingOrder)
    requires
        side_sorted(s, side),
    ensures
        side_sorted(s.insert(insert_index(s, side, o.price), o), side),
{
    lemma_insert_index(s, side, o.price);
    let k = insert_index(s, side, o.price);
    let r = s.insert(k, o);
    assert forall|i: int, j: int| 0 <= i < j < r.len() implies at_least_as_good(
        side,
        #[trigger] r[i].price,
        #[trigger] r[j].price,
    ) by {
        if j < k {
            assert(r[i] == s[i] && r[j] == s[j]);
        } else if j == k {
            assert(r[i] == s[i]);
        } else if i == k {
            assert(r[j] == s[j - 1]);
            assert(!at_least_as_good(side, s[j - 1].price, o.price));
        } else if i < k {
            assert(r[i] == s[i] && r[j] == s[j - 1]);
        } else {
            assert(r[i] == s[i - 1] && r[j] == s[j - 1]);
        }
    }
}

/// Inserting an order whose id is new keeps ids distinct and disjoint from
/// any side that does not hold the id.
pub proof fn lemma_insert_ids(s: Seq<RestingOrder>, k: int, o: RestingOrder)
    requires
        0 <= k <= s.len(),
        ids_distinct(s),
        !side_has_id(s, o.order_id),
    ensures
        ids_distinct(s.insert(k, o)),
        forall|id: OrderId| side_has_id(s.insert(k, o), id) ==> side_has_id(s, id) || id == o.order_id,
        forall|other: Seq<RestingOrder>|
            ids_disjoint(s, other) && !side_has_id(other, o.order_id) ==> ids_disjoint(
                s.insert(k, o),
                other,
            ),
        forall|other: Seq<RestingOrder>|
            ids_disjoint(other, s) && !side_has_id(other, o.order_id) ==> ids_disjoint(
                other,
                s.insert(k, o),
            ),
{
    let r = s.insert(k, o);
    assert forall|i: int| 0 <= i < r.len() && i != k implies #[trigger] r[i].order_id != o.order_id
        && side_has_id(s, r[i].order_id) by {
        if i < k {
            assert(r[i] == s[i]);
        } else {
            assert(r[i] == s[i - 1]);
        }
    }
    assert forall|id: OrderId| side_has_id(r, id) implies side_has_id(s, id) || id == o.order_id by {
        let i = choose|i: int| 0 <= i < r.len() && #[trigger] r[i].order_id == id;
    }
    assert forall|i: int, j: int|
        0 <= i < r.len() && 0 <= j < r.len() && i != j implies #[trigger] r[i].order_id
        != #[trigger] r[j].order_id by {
        if i != k && j != k {
            let si = if i < k { i } else { i - 1 };
            let sj = if j < k { j } else { j - 1 };
            assert(r[i] == s[si] && r[j] == s[sj]);
        }
    }
    assert forall|other: Seq<RestingOrder>|
        ids_disjoint(s, other) && !side_has_id(other, o.order_id) implies ids_disjoint(r, other) by {
        assert forall|i: int, j: int| 0 <= i < r.len() && 0 <= j < other.len() implies #[trigger] r[i].order_id
            != #[trigger] other[j].order_id by {
            if i == k {
                assert(other[j].order_id != o.order_id);
            } else if i < k {
                assert(r[i] == s[i]);
            } else {
                assert(r[i] == s[i - 1]);
            }
        }
    }
    assert forall|other: Seq<RestingOrder>|
        ids_disjoint(other, s) && !side_has_id(other, o.order_id) implies ids_disjoint(other, r) by {
        assert forall|i: int, j: int| 0 <= i < other.len() && 0 <= j < r.len() implies #[trigger] other[i].order_id
            != #[trigger] r[j].order_id by {
            if j == k {
                assert(other[i].order_id != o.order_id);
            } else if j < k {
                assert(r[j] == s[j]);
            } else {
                assert(r[j] == s[j - 1]);
            }
        }
    }
}

/// `index_of_id` finds the first order with the id, and -1 means none.
pub proof fn lemma_index_of_id(s: Seq<RestingOrder>, id: OrderId)
    ensures
        -1 <= index_of_id(s, id) < s.len(),
        index_of_id(s, id) >= 0 ==> s[index_of_id(s, id)].order_id == id,
        index_of_id(s, id) == -1 <==> !side_has_id(s, id),
    decreases s.len(),
{
    if s.len() > 0 {
        lemma_index_of_id(s.drop_last(), id);
        if side_has_id(s, id) && index_of_id(s, id) == -1 {
            let i = choose|i: int| 0 <= i < s.len() && #[trigger] s[i].order_id == id;
            if i < s.len() - 1 {
                assert(s.drop_last()[i].order_id == id);
            }
        }
        if index_of_id(s.drop_last(), id) >= 0 {
            assert(s.drop_last()[index_of_id(s.drop_last(), id)] == s[index_of_id(s.drop_last(), id)]);
        }
    }
}

/// Once a prefix holds the id, the whole side finds it at the same index.
pub proof fn lemma_index_of_id_prefix(s: Seq<RestingOrder>, j: int, id: OrderId)
    requires
        0 <= j <= s.len(),
        index_of_id(s.take(j), id) >= 0,
    ensures
        index_of_id(s, id) == index_of_id(s.take(j), id),
    decreases s.len() - j,
{
    if j < s.len() {
        assert(s.take(j + 1).drop_last() =~= s.take(j));
        lemma_index_of_id_prefix(s, j + 1, id);
    } else {
        assert(s.take(j) =~= s);
    }
}

/// Removing an order keeps a side's order, positivity and distinct ids,
/// and leaves no id the side did not hold.
pub proof fn lemma_remove_props(s: Seq<RestingOrder>, i: int, side: OrderAction)
    requires
        0 <= i < s.len(),
    ensures
        side_sorted(s, side) ==> side_sorted(s.remove(i), side),
        sizes_positive(s) ==> sizes_positive(s.remove(i)),
        ids_distinct(s) ==> ids_distinct(s.remove(i)),
        forall|other: Seq<RestingOrder>| ids_disjoint(s, other) ==> ids_disjoint(s.remove(i), other),
        forall|other: Seq<RestingOrder>| ids_disjoint(other, s) ==> ids_disjoint(other, s.remove(i)),
{
    let r = s.remove(i);
    assert forall|j: int| 0 <= j < r.len() implies #[trigger] r[j] == s[if j < i { j } else { j + 1 }] by {}
    if side_sorted(s, side) {
        assert forall|a: int, b: int| 0 <= a < b < r.len() implies at_least_as_good(
            side,
            #[trigger] r[a].price,
            #[trigger] r[b].price,
        ) by {
            let sa = if a < i { a } else { a + 1 };
            let sb = if b < i { b } else { b + 1 };
            assert(r[a] == s[sa] && r[b] == s[sb]);
        }
    }
    if ids_distinct(s) {
        assert forall|a: int, b: int|
            0 <= a < r.len() && 0 <= b < r.len() && a != b implies #[trigger] r[a].order_id
            != #[trigger] r[b].order_id by {
            let sa = if a < i { a } else { a + 1 };
            let sb = if b < i { b } else { b + 1 };
            assert(r[a] == s[sa] && r[b] == s[sb]);
        }
    }
    assert forall|other: Seq<RestingOrder>| ids_disjoint(s, other) implies ids_disjoint(r, other) by {
        assert forall|a: int, b: int| 0 <= a < r.len() && 0 <= b < other.len() implies #[trigger] r[a].order_id
            != #[trigger] other[b].order_id by {
            let sa = if a < i { a } else { a + 1 };
            assert(r[a] == s[sa]);
        }
    }
    assert forall|other: Seq<RestingOrder>| ids_disjoint(other, s) implies ids_disjoint(other, r) by {
        assert forall|a: int, b: int| 0 <= a < other.len() && 0 <= b < r.len() implies #[trigger] other[a].order_id
            != #[trigger] r[b].order_id by {
            let sb = if b < i { b } else { b + 1 };
            assert(r[b] == s[sb]);
        }
    }
}

/// A prefix of a side with positive sizes totals at most the side.
pub proof fn lemma_sum_prefix(s: Seq<RestingOrder>, i: int)
    requires
        0 <= i <= s.len(),
        sizes_positive(s),
    ensures
        0 <= sum_sizes(s.take(i)) <= sum_sizes(s),
{
    lemma_sum_concat(s.take(i), s.skip(i));
    assert(s.take(i) + s.skip(i) =~= s);
    assert(sizes_positive(s.skip(i))) by {
        assert forall|j: int| 0 <= j < s.skip(i).len() implies #[trigger] s.skip(i)[j].size > 0 by {
            assert(s.skip(i)[j] == s[j + i]);
        }
    }
    assert(sizes_positive(s.take(i))) by {
        assert forall|j: int| 0 <= j < s.take(i).len() implies #[trigger] s.take(i)[j].size > 0 by {
            assert(s.take(i)[j] == s[j]);
        }
    }
    lemma_sum_positive(s.skip(i));
    lemma_sum_positive(s.take(i));
}

/// Every level of a side with positive sizes has a positive volume of at
/// most the side's total.
pub proof fn lemma_levels_bounded(s: Seq<RestingOrder>)
    requires
        sizes_positive(s),
    ensures
        forall|k: int|
            0 <= k < levels(s).len() ==> 0 < (#[trigger] levels(s)[k]).1 <= sum_sizes(s),
    decreases s.len(),
{
    if s.len() > 0 {
        let d = s.drop_last();
        assert(sizes_positive(d)) by {
            assert forall|j: int| 0 <= j < d.len() implies #[trigger] d[j].size > 0 by {
                assert(d[j] == s[j]);
            }
        }
        lemma_levels_bounded(d);
        lemma_sum_positive(d);
        assert(s.last().size > 0);
        let l = levels(d);
        assert forall|k: int| 0 <= k < levels(s).len() implies 0 < (#[trigger] levels(s)[k]).1
            <= sum_sizes(s) by {
            if k < l.len() && !(l.len() > 0 && l.last().0 == s.last().price && k == l.len() - 1) {
                assert(levels(s)[k] == l[k]);
            }
        }
    }
}

/// Total open size of the orders of `s` at price `p`.
pub open spec fn volume_at(s: Seq<RestingOrder>, p: Price) -> int
    decreases s.len(),
{
    if s.len() == 0 {
        0
    } else {
        volume_at(s.drop_last(), p) + if s.last().price == p {
            s.last().size as int
        } else {
            0
        }
    }
}

/// No order of `s` at price `p` means no volume at `p`.
proof fn lemma_volume_at_absent(s: Seq<RestingOrder>, p: Price)
    requires
        forall|i: int| 0 <= i < s.len() ==> (#[trigger] s[i]).price != p,
    ensures
        volume_at(s, p) == 0,
    decreases s.len(),
{
    if s.len() > 0 {
        let d = s.drop_last();
        assert forall|i: int| 0 <= i < d.len() implies (#[trigger] d[i]).price != p by {
            assert(d[i] == s[i]);
        }
        lemma_volume_at_absent(d, p);
    }
}

/// The price levels of a side in priority order are what depth data means:
/// one level per distinct price, each strictly behind the one before it,
/// every order's price is a level, and a level's volume is the total size
/// of all the side's orders at its price. The first level is at the price
/// of the side's first order.
pub proof fn lemma_levels_aggregate(s: Seq<RestingOrder>, side: OrderAction)
    requires
        side_sorted(s, side),
    ensures
        ({
            let l = levels(s);
            &&& l.len() <= s.len()
            &&& s.len() > 0 ==> l.len() > 0 && l[0].0 == s[0].price && l.last().0 == s.last().price
            &&& forall|i: int, j: int|
                0 <= i < j < l.len() ==> at_least_as_good(side, #[trigger] l[i].0, #[trigger] l[j].0)
                    && l[i].0 != l[j].0
            &&& forall|k: int| 0 <= k < l.len() ==> (#[trigger] l[k]).1 == volume_at(s, l[k].0)
            &&& forall|i: int| 0 <= i < s.len() ==> exists|k: int| 0 <= k < l.len() && (#[trigger] l[k]).0 == (#[trigger] s[i]).price
        }),
    decreases s.len(),
{
    if s.len() == 0 {
        return;
    }
    let d = s.drop_last();
    let o = s.last();
    let l = levels(s);
    let ld = levels(d);
    assert(side_sorted(d, side)) by {
        assert forall|i: int, j: int| 0 <= i < j < d.len() implies at_least_as_good(side, #[trigger] d[i].price, #[trigger] d[j].price) by {
            assert(d[i] == s[i] && d[j] == s[j]);
        }
    }
    lemma_levels_aggregate(d, side);
    if d.len() == 0 {
        assert(ld.len() == 0);
        assert(l =~= seq![(o.price, o.size as int)]);
        assert(volume_at(d, o.price) == 0);
        assert(s[0] == o);
        assert forall|i: int| 0 <= i < s.len() implies exists|k: int| 0 <= k < l.len() && (#[trigger] l[k]).0 == (#[trigger] s[i]).price by {
            assert(l[0].0 == s[i].price);
        }
        return;
    }
    assert(d.last() == s[s.len() - 2]);
    assert(at_least_as_good(side, d.last().price, o.price));
    assert(s[0] == d[0]);
    if ld.last().0 == o.price {
        assert(l == ld.update(ld.len() - 1, (o.price, ld.last().1 + o.size)));
        assert forall|i: int, j: int| 0 <= i < j < l.len() implies at_least_as_good(side, #[trigger] l[i].0, #[trigger] l[j].0)
            && l[i].0 != l[j].0 by {
            assert(l[i].0 == ld[i].0 && l[j].0 == ld[j].0);
        }
        assert forall|k: int| 0 <= k < l.len() implies (#[trigger] l[k]).1 == volume_at(s, l[k].0) by {
            assert(volume_at(s, l[k].0) == volume_at(d, l[k].0) + if o.price == l[k].0 { o.size as int } else { 0 });
            if k < ld.len() - 1 {
                assert(ld[k].0 != ld[ld.len() - 1].0);
                assert(l[k] == ld[k]);
            }
        }
        assert forall|i: int| 0 <= i < s.len() implies exists|k: int| 0 <= k < l.len() && (#[trigger] l[k]).0 == (#[trigger] s[i]).price by {
            if i < d.len() {
                assert(s[i] == d[i]);
                let k = choose|k: int| 0 <= k < ld.len() && (#[trigger] ld[k]).0 == d[i].price;
                assert(l[k].0 == ld[k].0);
            } else {
                assert(l[l.len() - 1].0 == s[i].price);
            }
        }
    } else {
        assert(l == ld.push((o.price, o.size as int)));
        assert forall|k: int| 0 <= k < ld.len() implies at_least_as_good(side, #[trigger] ld[k].0, o.price) && ld[k].0 != o.price by {
            if k < ld.len() - 1 {
                assert(at_least_as_good(side, ld[k].0, ld[ld.len() - 1].0) && ld[k].0 != ld[ld.len() - 1].0);
            }
        }
        assert forall|i: int, j: int| 0 <= i < j < l.len() implies at_least_as_good(side, #[trigger] l[i].0, #[trigger] l[j].0)
            && l[i].0 != l[j].0 by {
            assert(l[i] == ld[i]);
            if j < ld.len() {
                assert(l[j] == ld[j]);
            } else {
                assert(l[j].0 == o.price);
            }
        }
        assert forall|i: int| 0 <= i < d.len() implies (#[trigger] d[i]).price != o.price by {
            let k = choose|k: int| 0 <= k < ld.len() && (#[trigger] ld[k]).0 == (#[trigger] d[i]).price;
            assert(ld[k].0 != o.price);
        }
        lemma_volume_at_absent(d, o.price);
        assert forall|k: int| 0 <= k < l.len() implies (#[trigger] l[k]).1 == volume_at(s, l[k].0) by {
            assert(volume_at(s, l[k].0) == volume_at(d, l[k].0) + if o.price == l[k].0 { o.size as int } else { 0 });
            if k < ld.len() {
                assert(l[k] == ld[k]);
                assert(ld[k].0 != o.price);
            }
        }
        assert forall|i: int| 0 <= i < s.len() implies exists|k: int| 0 <= k < l.len() && (#[trigger] l[k]).0 == (#[trigger] s[i]).price by {
            if i < d.len() {
                assert(s[i] == d[i]);
                let k = choose|k: int| 0 <= k < ld.len() && (#[trigger] ld[k]).0 == d[i].price;
                assert(l[k] == ld[k]);
            } else {
                assert(l[l.len() - 1].0 == s[i].price);
            }
        }
    }
}

/// Every trade names the resting order it filled: the `j`-th trade of a
/// match is against the `j`-th order of the side, in priority order, and
/// carries that order's id, its owner and its price.
pub proof fn lemma_trades_name_makers(
    side: Seq<RestingOrder>,
    taker: OrderAction,
    limit: Price,
    remaining: int,
    hold: Price,
)
    ensures
        ({
            let m = match_side(side, taker, limit, remaining, hold);
            &&& m.0.len() <= side.len()
            &&& forall|j: int|
                0 <= j < m.0.len() ==> {
                    &&& (#[trigger] m.0[j]).matched_order_id == side[j].order_id
                    &&& m.0[j].matched_order_uid == side[j].uid
                    &&& m.0[j].price == side[j].price
                }
        }),
    decreases side.len(),
{
    if remaining <= 0 || side.len() == 0 || !crosses(taker, limit, side[0].price) {
    } else if side[0].size <= remaining {
        let rest_side = side.drop_first();
        lemma_trades_name_makers(rest_side, taker, limit, remaining - side[0].size, hold);
        let m = match_side(side, taker, limit, remaining, hold);
        let rest = match_side(rest_side, taker, limit, remaining - side[0].size, hold);
        assert forall|j: int| 0 <= j < m.0.len() implies {
            &&& (#[trigger] m.0[j]).matched_order_id == side[j].order_id
            &&& m.0[j].matched_order_uid == side[j].uid
            &&& m.0[j].price == side[j].price
        } by {
            if j > 0 {
                assert(m.0[j] == rest.0[j - 1]);
                assert(rest_side[j - 1] == side[j]);
            }
        }
    } else {
    }
}

/// `prices` and `volumes` describe the first `depth` levels of side `s`.
pub open spec fn l2_side(prices: Seq<Price>, volumes: Seq<Size>, s: Seq<RestingOrder>, depth: int) -> bool {
    let l = levels(s);
    let n = if depth < l.len() { depth } else { l.len() as int };
    &&& prices.len() == n
    &&& volumes.len() == n
    &&& forall|k: int| 0 <= k < n ==> prices[k] == (#[trigger] l[k]).0 && volumes[k] == l[k].1
}

/// Cancelling undoes resting: when what is left of `t` rests, cancelling
/// `t`'s id as `t`'s owner succeeds on `t`'s side and gives back the book as
/// it was right after trading.
pub proof fn lemma_cancel_undoes_rest(book: BookState, t: TakerOrder)
    requires
        book.wf(),
        rests(book, t),
    ensures
        ({
            let c = cancel_result(new_order_result(book, t).0, t.order_id, t.uid);
            &&& c.1 == Some(t.action)
            &&& c.0 == matched_book(book, t)
        }),
{
    let opp = opposite(t.action);
    let m = match_taker(book, t);
    let k0 = lemma_match_side(book.side(opp), t.action, t.price, t.size as int, t.reserve_price);
    lemma_trimmed_suffix(m.1, book.side(opp), k0, opp);
    let book1 = matched_book(book, t);
    let own = book1.side(t.action);
    let o = resting_from(t, m.2);
    lemma_insert_index(own, t.action, t.price);
    let k = insert_index(own, t.action, t.price);
    let own2 = own.insert(k, o);
    lemma_insert_ids(own, k, o);
    lemma_index_of_id(own2, t.order_id);
    assert(own2[k].order_id == t.order_id);
    assert(side_has_id(own2, t.order_id));
    let idx = index_of_id(own2, t.order_id);
    assert(idx == k);
    assert(own2.remove(k) =~= own);
    let other = book1.side(opp);
    lemma_index_of_id(other, t.order_id);
    assert(index_of_id(other, t.order_id) == -1);
}

// ---------------------------------------------------------------------------
// The book
// ---------------------------------------------------------------------------

/// A limit order book for one symbol.
#[derive(Debug)]
pub struct DirectOrderBook {
    symbol_spec: CoreSymbolSpecification,
    asks: Vec<RestingOrder>,
    bids: Vec<RestingOrder>,
    ask_volume: i64,
    bid_volume: i64,
}

impl View for DirectOrderBook {
    type V = BookState;

    closed spec fn view(&self) -> BookState {
        BookState { spec: self.symbol_spec, asks: self.asks@, bids: self.bids@ }
    }
}

/// `crosses`, computed.
fn crosses_exec(taker: OrderAction, limit: Price, maker_price: Price) -> (r: bool)
    ensures
        r == crosses(taker, limit, maker_price),
{
    match taker {
        OrderAction::Bid => maker_price <= limit,
        OrderAction::Ask => maker_price >= limit,
    }
}

/// `at_least_as_good`, computed.
fn at_least_as_good_exec(side: OrderAction, a: Price, b: Price) -> (r: bool)
    ensures
        r == at_least_as_good(side, a, b),
{
    match side {
        OrderAction::Ask => a <= b,
        OrderAction::Bid => a >= b,
    }
}

/// Matches `size` of a taker against the opposite side `opp`, appending the
/// trades to `events`; returns the unfilled quantity.
fn match_against(
    opp: &mut Vec<RestingOrder>,
    opp_volume: &mut i64,
    taker: OrderAction,
    limit: Price,
    size: Size,
    hold: Price,
    events: &mut Vec<MatcherTradeEvent>,
) -> (remaining: i64)
    requires
        sizes_positive(old(opp)@),
        *old(opp_volume) == sum_sizes(old(opp)@),
    ensures
        ({
            let m = match_side(old(opp)@, taker, limit, size as int, hold);
            &&& final(opp)@ == m.1
            &&& final(events)@ == old(events)@ + m.0
            &&& remaining == m.2
            &&& *final(opp_volume) == sum_sizes(m.1)
        }),
{
    let ghost total = match_side(opp@, taker, limit, size as int, hold);
    let ghost ev0 = events@;
    let mut remaining = size;
    proof {
        lemma_sum_positive(opp@);
    }
    while remaining > 0 && opp.len() > 0 && crosses_exec(taker, limit, opp[0].price)
        invariant
            match_side(opp@, taker, limit, remaining as int, hold).1 == total.1,
            match_side(opp@, taker, limit, remaining as int, hold).2 == total.2,
            events@ + match_side(opp@, taker, limit, remaining as int, hold).0 == ev0 + total.0,
            sizes_positive(opp@),
            *opp_volume == sum_sizes(opp@),
            sum_sizes(opp@) >= 0,
        decreases opp.len() + (if remaining > 0 { 1int } else { 0int }),
    {
        let maker = opp[0];
        let ghost before = opp@;
        let ghost evs_before = events@;
        proof {
            lemma_sum_positive(opp@);
        }
        if maker.size <= remaining {
            opp.remove(0);
            proof {
                assert(opp@ =~= before.drop_first());
                lemma_sum_drop_first(before);
                assert(sizes_positive(opp@)) by {
                    assert forall|i: int| 0 <= i < opp@.len() implies #[trigger] opp@[i].size > 0 by {
                        assert(opp@[i] == before[i + 1]);
                    }
                }
            }
            *opp_volume = *opp_volume - maker.size;
            events.push(
                MatcherTradeEvent::new_trade(
                    maker.size,
                    maker.price,
                    maker.order_id,
                    maker.uid,
                    hold,
                ),
            );
            remaining = remaining - maker.size;
            proof {
                let ev = trade_with(maker.size as int, maker, hold);
                let rest = match_side(opp@, taker, limit, remaining as int, hold);
                assert(events@ =~= evs_before.push(ev));
                assert(events@ + rest.0 =~= evs_before + (seq![ev] + rest.0));
            }
        } else {
            let upd = RestingOrder { size: maker.size - remaining, ..maker };
            opp.set(0, upd);
            proof {
                lemma_sum_update(before, 0, upd);
                assert(upd == with_size(maker, maker.size - remaining));
            }
            *opp_volume = *opp_volume - remaining;
            events.push(
                MatcherTradeEvent::new_trade(remaining, maker.price, maker.order_id, maker.uid, hold),
            );
            proof {
                assert(events@ =~= evs_before + seq![trade_with(remaining as int, maker, hold)]);
            }
            remaining = 0;
            proof {
                assert(events@ + match_side(opp@, taker, limit, remaining as int, hold).0 =~= events@);
            }
        }
    }
    proof {
        assert(events@ + match_side(opp@, taker, limit, remaining as int, hold).0 =~= events@);
    }
    remaining
}

/// Places `o` on side `own` after every order at least as good as its price.
fn insert_by_priority(
    own: &mut Vec<RestingOrder>,
    own_volume: &mut i64,
    side: OrderAction,
    o: RestingOrder,
)
    requires
        *old(own_volume) == sum_sizes(old(own)@),
        sum_sizes(old(own)@) + o.size <= i64::MAX,
        o.size > 0,
    ensures
        final(own)@ == old(own)@.insert(insert_index(old(own)@, side, o.price), o),
        *final(own_volume) == sum_sizes(final(own)@),
{
    let mut i = own.len();
    proof {
        assert(own@.take(i as int) =~= own@);
    }
    while i > 0 && !at_least_as_good_exec(side, own[i - 1].price, o.price)
        invariant
            i <= own.len(),
            insert_index(own@, side, o.price) == insert_index(own@.take(i as int), side, o.price),
        decreases i,
    {
        proof {
            assert(own@.take(i as int).drop_last() =~= own@.take(i - 1));
        }
        i = i - 1;
    }
    proof {
        if i > 0 {
            assert(own@.take(i as int).last() == own@[i - 1]);
        }
        lemma_sum_insert(own@, i as int, o);
    }
    own.insert(i, o);
    *own_volume = *own_volume + o.size;
}

/// Whether some order on `s` has id `id`.
fn side_contains(s: &Vec<RestingOrder>, id: OrderId) -> (r: bool)
    ensures
        r == side_has_id(s@, id),
{
    let mut i: usize = 0;
    while i < s.len()
        invariant
            i <= s.len(),
            forall|j: int| 0 <= j < i ==> #[trigger] s@[j].order_id != id,
        decreases s.len() - i,
    {
        if s[i].order_id == id {
            return true;
        }
        i = i + 1;
    }
    false
}

/// Index of the order with id `id` on `s`.
fn find_order(s: &Vec<RestingOrder>, id: OrderId) -> (r: Option<usize>)
    ensures
        match r {
            Some(i) => i as int == index_of_id(s@, id),
            None => index_of_id(s@, id) == -1,
        },
{
    let mut i: usize = 0;
    while i < s.len()
        invariant
            i <= s.len(),
            index_of_id(s@.take(i as int), id) == -1,
        decreases s.len() - i,
    {
        proof {
            assert(s@.take(i + 1).drop_last() =~= s@.take(i as int));
        }
        if s[i].order_id == id {
            proof {
                lemma_index_of_id_prefix(s@, i + 1, id);
            }
            return Some(i);
        }
        i = i + 1;
    }
    proof {
        assert(s@.take(i as int) =~= s@);
    }
    None
}

/// Price levels of side `s`, best first.
fn side_levels(s: &Vec<RestingOrder>) -> (r: (Vec<Price>, Vec<Size>))
    requires
        sizes_positive(s@),
        sum_sizes(s@) <= i64::MAX,
    ensures
        l2_side(r.0@, r.1@, s@, levels(s@).len() as int),
{
    let mut prices: Vec<Price> = Vec::new();
    let mut volumes: Vec<Size> = Vec::new();
    let mut i: usize = 0;
    while i < s.len()
        invariant
            i <= s.len(),
            sizes_positive(s@),
            sum_sizes(s@) <= i64::MAX,
            l2_side(prices@, volumes@, s@.take(i as int), levels(s@.take(i as int)).len() as int),
        decreases s.len() - i,
    {
        let o = s[i];
        let ghost pre = s@.take(i as int);
        let ghost post = s@.take(i + 1);
        proof {
            assert(post.drop_last() =~= pre);
            assert(post.last() == o);
            assert(sizes_positive(pre)) by {
                assert forall|j: int| 0 <= j < pre.len() implies #[trigger] pre[j].size > 0 by {
                    assert(pre[j] == s@[j]);
                }
            }
            assert(sizes_positive(post)) by {
                assert forall|j: int| 0 <= j < post.len() implies #[trigger] post[j].size > 0 by {
                    assert(post[j] == s@[j]);
                }
            }
            lemma_levels_bounded(pre);
            lemma_levels_bounded(post);
            lemma_sum_prefix(s@, i + 1);
            assert(sum_sizes(post) == sum_sizes(pre) + o.size);
        }
        let n = prices.len();
        if n > 0 && prices[n - 1] == o.price {
            proof {
                let l = levels(pre);
                assert(volumes@[n - 1] == l[n - 1].1);
                assert(l[n - 1].1 <= sum_sizes(pre));
            }
            let v = volumes[n - 1] + o.size;
            volumes.set(n - 1, v);
        } else {
            prices.push(o.price);
            volumes.push(o.size);
        }
        i = i + 1;
    }
    proof {
        assert(s@.take(i as int) =~= s@);
    }
    (prices, volumes)
}

/// Whether one of the first `n` orders of `s` has id `id`.
fn prefix_contains(s: &Vec<RestingOrder>, n: usize, id: OrderId) -> (r: bool)
    requires
        n <= s@.len(),
    ensures
        r == side_has_id(s@.take(n as int), id),
{
    let mut i: usize = 0;
    while i < n
        invariant
            i <= n <= s@.len(),
            forall|j: int| 0 <= j < i ==> #[trigger] s@[j].order_id != id,
        decreases n - i,
    {
        if s[i].order_id == id {
            proof {
                assert(s@.take(n as int)[i as int].order_id == id);
            }
            return true;
        }
        i = i + 1;
    }
    proof {
        assert forall|j: int| 0 <= j < n implies #[trigger] s@.take(n as int)[j].order_id != id by {
            assert(s@.take(n as int)[j] == s@[j]);
        }
    }
    false
}

/// The total of side `s` when the side is sorted for `side`, has positive
/// sizes, distinct ids and a total within `i64::MAX`; `None` otherwise.
fn checked_side_total(s: &Vec<RestingOrder>, side: OrderAction) -> (r: Option<i64>)
    ensures
        match r {
            Some(total) => {
                &&& side_sorted(s@, side)
                &&& sizes_positive(s@)
                &&& ids_distinct(s@)
                &&& total == sum_sizes(s@)
            },
            None => !(side_sorted(s@, side) && sizes_positive(s@) && ids_distinct(s@) && sum_sizes(s@)
                <= i64::MAX),
        },
{
    let mut total: i64 = 0;
    let mut i: usize = 0;
    while i < s.len()
        invariant
            i <= s@.len(),
            side_sorted(s@.take(i as int), side),
            sizes_positive(s@.take(i as int)),
            ids_distinct(s@.take(i as int)),
            total == sum_sizes(s@.take(i as int)),
            total >= 0,
        decreases s@.len() - i,
    {
        let o = s[i];
        let ghost pre = s@.take(i as int);
        let ghost next = s@.take(i + 1);
        proof {
            assert(next.drop_last() =~= pre);
            assert(next.last() == o);
        }
        if o.size <= 0 {
            return None;
        }
        if i > 0 && !at_least_as_good_exec(side, s[i - 1].price, o.price) {
            proof {
                assert(!at_least_as_good(side, s@[i - 1].price, s@[i as int].price));
            }
            return None;
        }
        if o.size > i64::MAX - total {
            proof {
                if sizes_positive(s@) {
                    lemma_sum_prefix(s@, i + 1);
                }
            }
            return None;
        }
        if prefix_contains(s, i, o.order_id) {
            proof {
                let j = choose|j: int| 0 <= j < pre.len() && #[trigger] pre[j].order_id == o.order_id;
                assert(s@[j].order_id == s@[i as int].order_id);
            }
            return None;
        }
        proof {
            assert(side_sorted(next, side)) by {
                assert forall|a: int, b: int| 0 <= a < b < next.len() implies at_least_as_good(
                    side,
                    #[trigger] next[a].price,
                    #[trigger] next[b].price,
                ) by {
                    assert(next[a] == s@[a] && next[b] == s@[b]);
                    if b == i && a < i - 1 {
                        assert(pre[a] == s@[a] && pre[i - 1] == s@[i - 1]);
                        assert(at_least_as_good(side, pre[a].price, pre[i - 1].price));
                    }
                    if b < i {
                        assert(pre[a] == s@[a] && pre[b] == s@[b]);
                    }
                }
            }
            assert(sizes_positive(next)) by {
                assert forall|j: int| 0 <= j < next.len() implies #[trigger] next[j].size > 0 by {
                    if j < i {
                        assert(next[j] == pre[j]);
                    }
                }
            }
            assert(ids_distinct(next)) by {
                assert forall|a: int, b: int|
                    0 <= a < next.len() && 0 <= b < next.len() && a != b implies #[trigger] next[a].order_id
                    != #[trigger] next[b].order_id by {
                    if a < i && b < i {
                        assert(next[a] == pre[a] && next[b] == pre[b]);
                    } else if a < i {
                        assert(next[a] == pre[a]);
                    } else if b < i {
                        assert(next[b] == pre[b]);
                    }
                }
            }
        }
        total = total + o.size;
        i = i + 1;
    }
    proof {
        assert(s@.take(i as int) =~= s@);
    }
    Some(total)
}

/// Whether no order of `a` shares its id with an order of `b`.
fn sides_disjoint(a: &Vec<RestingOrder>, b: &Vec<RestingOrder>) -> (r: bool)
    ensures
        r == ids_disjoint(a@, b@),
{
    let mut i: usize = 0;
    while i < a.len()
        invariant
            i <= a@.len(),
            forall|x: int, y: int|
                0 <= x < i && 0 <= y < b@.len() ==> #[trigger] a@[x].order_id != #[trigger] b@[y].order_id,
        decreases a@.len() - i,
    {
        if side_contains(b, a[i].order_id) {
            proof {
                let y = choose|y: int| 0 <= y < b@.len() && #[trigger] b@[y].order_id == a@[i as int].order_id;
                assert(a@[i as int].order_id == b@[y].order_id);
            }
            return false;
        }
        i = i + 1;
    }
    true
}

impl DirectOrderBook {
    /// The cached side totals agree with the sides.
    pub closed spec fn volumes_cached(&self) -> bool {
        &&& self.ask_volume == sum_sizes(self.asks@)
        &&& self.bid_volume == sum_sizes(self.bids@)
    }

    /// The book is well formed.
    pub open spec fn wf(&self) -> bool {
        &&& self@.wf()
        &&& self.volumes_cached()
    }

    /// An empty book for `spec`.
    pub fn new(spec: CoreSymbolSpecification) -> (r: Self)
        ensures
            r.wf(),
            r@ == (BookState { spec, asks: Seq::empty(), bids: Seq::empty() }),
    {
        let r = DirectOrderBook {
            symbol_spec: spec,
            asks: Vec::new(),
            bids: Vec::new(),
            ask_volume: 0,
            bid_volume: 0,
        };
        proof {
            assert(r.asks@.len() == 0);
            assert(r.bids@.len() == 0);
        }
        r
    }

    /// The symbol this book trades.
    pub fn get_symbol_spec(&self) -> (r: &CoreSymbolSpecification)
        ensures
            *r == self@.spec,
    {
        &self.symbol_spec
    }

    /// Whether an order with id `id` rests in the book.
    pub fn has_order(&self, id: OrderId) -> (r: bool)
        ensures
            r == self@.has_order(id),
    {
        side_contains(&self.asks, id) || side_contains(&self.bids, id)
    }

    /// Places the order of `cmd`: it trades against the opposite side, best
    /// price first and oldest first within a price, while prices cross; the
    /// trades are appended to `cmd.matcher_events`. A good-till-cancel order
    /// then rests with its unfilled quantity, unless an order with its id is
    /// already in the book or the side's total would exceed `i64::MAX`.
    pub fn new_order(&mut self, cmd: &mut OrderCommand)
        requires
            old(self).wf(),
        ensures
            final(self).wf(),
            final(self)@ == new_order_result(old(self)@, taker_of(*old(cmd))).0,
            final(cmd).matcher_events@ == old(cmd).matcher_events@ + new_order_result(
                old(self)@,
                taker_of(*old(cmd)),
            ).1,
            final(cmd).same_but_events(*old(cmd)),
    {
        let ghost b0 = self@;
        let ghost t = taker_of(*cmd);
        let remaining = match cmd.action {
            OrderAction::Bid => match_against(
                &mut self.asks,
                &mut self.ask_volume,
                OrderAction::Bid,
                cmd.price,
                cmd.size,
                cmd.reserve_price,
                &mut cmd.matcher_events,
            ),
            OrderAction::Ask => match_against(
                &mut self.bids,
                &mut self.bid_volume,
                OrderAction::Ask,
                cmd.price,
                cmd.size,
                cmd.reserve_price,
                &mut cmd.matcher_events,
            ),
        };
        let ghost opp = opposite(t.action);
        proof {
            let k = lemma_match_side(b0.side(opp), t.action, t.price, t.size as int, t.reserve_price);
            let m = match_side(b0.side(opp), t.action, t.price, t.size as int, t.reserve_price);
            lemma_trimmed_suffix(m.1, b0.side(opp), k, opp);
            lemma_sum_positive(b0.side(opp));
            assert(self@ == b0.with_side(opp, m.1));
            lemma_sum_positive(self@.asks);
            lemma_sum_positive(self@.bids);
        }
        if cmd.order_type == OrderType::Gtc && remaining > 0 && !self.has_order(cmd.order_id) {
            let o = RestingOrder {
                order_id: cmd.order_id,
                uid: cmd.uid,
                price: cmd.price,
                size: remaining,
                reserve_price: cmd.reserve_price,
                timestamp: cmd.timestamp,
            };
            let ghost b1 = self@;
            proof {
                assert(o == resting_from(t, remaining as int));
            }
            match cmd.action {
                OrderAction::Bid => {
                    if remaining <= i64::MAX - self.bid_volume {
                        proof {
                            lemma_insert_sorted(b1.bids, OrderAction::Bid, o);
                            lemma_insert_index(b1.bids, OrderAction::Bid, o.price);
                            lemma_insert_ids(b1.bids, insert_index(b1.bids, OrderAction::Bid, o.price), o);
                        }
                        insert_by_priority(&mut self.bids, &mut self.bid_volume, OrderAction::Bid, o);
                    }
                },
                OrderAction::Ask => {
                    if remaining <= i64::MAX - self.ask_volume {
                        proof {
                            lemma_insert_sorted(b1.asks, OrderAction::Ask, o);
                            lemma_insert_index(b1.asks, OrderAction::Ask, o.price);
                            lemma_insert_ids(b1.asks, insert_index(b1.asks, OrderAction::Ask, o.price), o);
                        }
                        insert_by_priority(&mut self.asks, &mut self.ask_volume, OrderAction::Ask, o);
                    }
                },
            }
        }
    }

    /// The book with the given symbol and sides (best first), if they form a
    /// well-formed book: each side in priority order with positive sizes and
    /// a total within `i64::MAX`, no order id twice, and the best bid below
    /// the best ask.
    pub fn from_parts(spec: CoreSymbolSpecification, asks: Vec<RestingOrder>, bids: Vec<RestingOrder>) -> (r: Option<Self>)
        ensures
            match r {
                Some(b) => b.wf() && b@ == (BookState { spec, asks: asks@, bids: bids@ }),
                None => !(BookState { spec, asks: asks@, bids: bids@ }.wf()),
            },
    {
        let ask_volume = match checked_side_total(&asks, OrderAction::Ask) {
            Some(v) => v,
            None => {
                return None;
            },
        };
        let bid_volume = match checked_side_total(&bids, OrderAction::Bid) {
            Some(v) => v,
            None => {
                return None;
            },
        };
        if !sides_disjoint(&asks, &bids) {
            return None;
        }
        if asks.len() > 0 && bids.len() > 0 && bids[0].price >= asks[0].price {
            return None;
        }
        Some(DirectOrderBook { symbol_spec: spec, asks, bids, ask_volume, bid_volume })
    }

    /// Cancels the order of `cmd`: the order with id `cmd.order_id` leaves the
    /// book when it belongs to user `cmd.uid`; otherwise nothing changes and
    /// the result is `MatchingUnknownOrderId`.
    pub fn cancel_order(&mut self, cmd: &mut OrderCommand) -> (r: CommandResultCode)
        requires
            old(self).wf(),
        ensures
            final(self).wf(),
            final(self)@ == cancel_result(old(self)@, old(cmd).order_id, old(cmd).uid).0,
            r == (if cancel_result(old(self)@, old(cmd).order_id, old(cmd).uid).1 is Some {
                CommandResultCode::Success
            } else {
                CommandResultCode::MatchingUnknownOrderId
            }),
            *final(cmd) == *old(cmd),
    {
        let ghost b0 = self@;
        proof {
            lemma_index_of_id(b0.bids, cmd.order_id);
            lemma_index_of_id(b0.asks, cmd.order_id);
            lemma_sum_positive(b0.bids);
            lemma_sum_positive(b0.asks);
        }
        match find_order(&self.bids, cmd.order_id) {
            Some(i) => {
                if self.bids[i].uid == cmd.uid {
                    proof {
                        lemma_remove_props(b0.bids, i as int, OrderAction::Bid);
                        lemma_sum_remove(b0.bids, i as int);
                    }
                    let o = self.bids.remove(i);
                    self.bid_volume = self.bid_volume - o.size;
                    CommandResultCode::Success
                } else {
                    CommandResultCode::MatchingUnknownOrderId
                }
            },
            None => match find_order(&self.asks, cmd.order_id) {
                Some(i) => {
                    if self.asks[i].uid == cmd.uid {
                        proof {
                            lemma_remove_props(b0.asks, i as int, OrderAction::Ask);
                            lemma_sum_remove(b0.asks, i as int);
                        }
                        let o = self.asks.remove(i);
                        self.ask_volume = self.ask_volume - o.size;
                        CommandResultCode::Success
                    } else {
                        CommandResultCode::MatchingUnknownOrderId
                    }
                },
                None => CommandResultCode::MatchingUnknownOrderId,
            },
        }
    }

    /// The first `depth` price levels of each side, best first, with the
    /// total open size at each level.
    pub fn get_l2_data(&self, depth: usize) -> (r: L2MarketData)
        requires
            self.wf(),
        ensures
            l2_side(r.ask_prices@, r.ask_volumes@, self@.asks, depth as int),
            l2_side(r.bid_prices@, r.bid_volumes@, self@.bids, depth as int),
    {
        let (mut ask_prices, mut ask_volumes) = side_levels(&self.asks);
        let (mut bid_prices, mut bid_volumes) = side_levels(&self.bids);
        ask_prices.truncate(depth);
        ask_volumes.truncate(depth);
        bid_prices.truncate(depth);
        bid_volumes.truncate(depth);
        L2MarketData { ask_prices, ask_volumes, bid_prices, bid_volumes }
    }

    /// Total open size of the asks.
    pub fn get_total_ask_volume(&self) -> (r: Size)
        requires
            self.wf(),
        ensures
            r == sum_sizes(self@.asks),
    {
        self.ask_volume
    }

    /// Total open size of the bids.
    pub fn get_total_bid_volume(&self) -> (r: Size)
        requires
            self.wf(),
        ensures
            r == sum_sizes(self@.bids),
    {
        self.bid_volume
    }

    /// Number of distinct ask prices.
    pub fn get_ask_buckets_count(&self) -> (r: usize)
        requires
            self.wf(),
        ensures
            r == levels(self@.asks).len(),
    {
        let (prices, _volumes) = side_levels(&self.asks);
        prices.len()
    }

    /// Number of distinct bid prices.
    pub fn get_bid_buckets_count(&self) -> (r: usize)
        requires
            self.wf(),
        ensures
            r == levels(self@.bids).len(),
    {
        let (prices, _volumes) = side_levels(&self.bids);
        prices.len()
    }

    /// The asks, best first.
    pub fn ask_orders(&self) -> (r: &Vec<RestingOrder>)
        ensures
            r@ == self@.asks,
    {
        &self.asks
    }

    /// The bids, best first.
    pub fn bid_orders(&self) -> (r: &Vec<RestingOrder>)
        ensures
            r@ == self@.bids,
    {
        &self.bids
    }
}

impl Clone for DirectOrderBook {
    fn clone(&self) -> (r: Self)
        ensures
            r@ == self@,
            self.wf() ==> r.wf(),
    {
        DirectOrderBook {
            symbol_spec: self.symbol_spec,
            asks: self.asks.clone(),
            bids: self.bids.clone(),
            ask_volume: self.ask_volume,
            bid_volume: self.bid_volume,
        }
    }
}

} // verus!
