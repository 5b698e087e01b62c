//! Plain command, event and market-data types shared by the order books.

use vstd::prelude::*;

verus! {

/// Price of one token, in units of `1 / PRICE_SCALE` of collateral.
pub type Price = i64;

/// Quantity of tokens.
pub type Size = i64;

/// Identifier of an order.
pub type OrderId = u64;

/// Identifier of a user.
pub type UserId = u64;

/// Identifier of a traded symbol (one book).
pub type SymbolId = i32;

/// Side of an order.
#[derive(Clone, Copy, Debug, PartialEq, Eq, Structural)]
pub enum OrderAction {
    /// Sell.
    Ask,
    /// Buy.
    Bid,
}

/// Time in force of an order.
#[derive(Clone, Copy, Debug, PartialEq, Eq, Structural)]
pub enum OrderType {
    /// Good till cancel: the unfilled rest is placed in the book.
    Gtc,
    /// Immediate or cancel: the unfilled rest is dropped.
    Ioc,
}

/// What a command asks the matching engine to do.
#[derive(Clone, Copy, Debug, PartialEq, Eq, Structural)]
pub enum OrderCommandType {
    /// Place a new order.
    PlaceOrder,
    /// Cancel a resting order.
    CancelOrder,
}

/// Outcome of a command.
#[derive(Clone, Copy, Debug, PartialEq, Eq, Structural)]
pub enum CommandResultCode {
    /// Not processed yet.
    New,
    /// Processed.
    Success,
    /// The order to cancel is not in the book (or belongs to another user).
    MatchingUnknownOrderId,
    /// The command's symbol belongs to another book.
    MatchingInvalidOrderBookId,
}

/// Kind of instrument a book trades.
#[derive(Clone, Copy, Debug, PartialEq, Eq, Structural)]
pub enum SymbolType {
    /// Spot pair.
    CurrencyExchangePair,
    /// Futures contract.
    FuturesContract,
    /// Perpetual swap.
    PerpetualSwap,
    /// Call option.
    CallOption,
    /// Put option.
    PutOption,
}

/// Static description of a traded symbol.
#[derive(Clone, Copy, Debug, PartialEq, Eq, Structural)]
pub struct CoreSymbolSpecification {
    pub symbol_id: SymbolId,
    pub symbol_type: SymbolType,
    pub base_currency: i32,
    pub quote_currency: i32,
    pub base_scale_k: i64,
    pub quote_scale_k: i64,
    pub taker_fee: i64,
    pub maker_fee: i64,
    pub margin_buy: i64,
    pub margin_sell: i64,
}

/// One fill of an incoming order against a resting one.
#[derive(Clone, Copy, Debug, PartialEq, Eq, Structural)]
pub struct MatcherTradeEvent {
    /// Quantity traded.
    pub size: Size,
    /// Price of the trade (the resting order's price).
    pub price: Price,
    /// The resting order that was hit.
    pub matched_order_id: OrderId,
    /// Owner of the resting order.
    pub matched_order_uid: UserId,
    /// Reserve price of the incoming order.
    pub bidder_hold_price: Price,
}

impl MatcherTradeEvent {
    /// A trade event with the given fields.
    pub fn new_trade(
        size: Size,
        price: Price,
        matched_order_id: OrderId,
        matched_order_uid: UserId,
        bidder_hold_price: Price,
    ) -> (r: Self)
        ensures
            r == (MatcherTradeEvent {
                size,
                price,
                matched_order_id,
                matched_order_uid,
                bidder_hold_price,
            }),
    {
        MatcherTradeEvent { size, price, matched_order_id, matched_order_uid, bidder_hold_price }
    }
}

/// A command for an order book, and the trades it produced.
#[derive(Debug)]
pub struct OrderCommand {
    pub command: OrderCommandType,
    pub result_code: CommandResultCode,
    pub uid: UserId,
    pub order_id: OrderId,
    pub symbol: SymbolId,
    pub price: Price,
    pub reserve_price: Price,
    pub size: Size,
    pub action: OrderAction,
    pub order_type: OrderType,
    pub timestamp: i64,
    pub events_group: u64,
    pub service_flags: i32,
    pub stop_price: Option<Price>,
    pub visible_size: Option<Size>,
    pub expire_time: Option<i64>,
    pub matcher_events: Vec<MatcherTradeEvent>,
}

impl OrderCommand {
    /// `self` and `other` agree on every field but the trade events.
    pub open spec fn same_but_events(self, other: OrderCommand) -> bool {
        &&& self.same_request(other)
        &&& self.result_code == other.result_code
    }

    /// `self` and `other` ask for the same thing: they agree on every field
    /// but the result code and the trade events.
    pub open spec fn same_request(self, other: OrderCommand) -> bool {
        &&& self.same_terms(other)
        &&& self.size == other.size
    }

    /// `self` and `other` agree on every field but the result code, the size
    /// and the trade events.
    pub open spec fn same_terms(self, other: OrderCommand) -> bool {
        &&& self.command == other.command
        &&& self.uid == other.uid
        &&& self.order_id == other.order_id
        &&& self.symbol == other.symbol
        &&& self.price == other.price
        &&& self.reserve_price == other.reserve_price
        &&& self.action == other.action
        &&& self.order_type == other.order_type
        &&& self.timestamp == other.timestamp
        &&& self.events_group == other.events_group
        &&& self.service_flags == other.service_flags
        &&& self.stop_price == other.stop_price
        &&& self.visible_size == other.visible_size
        &&& self.expire_time == other.expire_time
    }

    /// `self` is `other` after some of it was filled: they agree on every
    /// field but the size and the trade events.
    pub open spec fn same_but_fill(self, other: OrderCommand) -> bool {
        &&& self.same_terms(other)
        &&& self.result_code == other.result_code
    }
}

impl Clone for OrderCommand {
    fn clone(&self) -> (r: Self)
        ensures
            r.same_but_events(*self),
            r.matcher_events@ == self.matcher_events@,
    {
        OrderCommand {
            command: self.command,
            result_code: self.result_code,
            uid: self.uid,
            order_id: self.order_id,
            symbol: self.symbol,
            price: self.price,
            reserve_price: self.reserve_price,
            size: self.size,
            action: self.action,
            order_type: self.order_type,
            timestamp: self.timestamp,
            events_group: self.events_group,
            service_flags: self.service_flags,
            stop_price: self.stop_price,
            visible_size: self.visible_size,
            expire_time: self.expire_time,
            matcher_events: self.matcher_events.clone(),
        }
    }
}

/// Aggregated depth of a book: price levels, best first, with their volumes.
#[derive(Debug)]
pub struct L2MarketData {
    pub ask_prices: Vec<Price>,
    pub ask_volumes: Vec<Size>,
    pub bid_prices: Vec<Price>,
    pub bid_volumes: Vec<Size>,
}

} // verus!
