//! Conversion of prediction-market orders into book commands.

use vstd::prelude::*;
use crate::api::{
    CommandResultCode, OrderCommand, OrderCommandType, OrderId, OrderType, SymbolId,
};
use super::{MarketId, TokenType};
use super::order::PredictionOrder;

verus! {

/// Converts prediction-market orders into commands for the books, and
/// (market, token) pairs into symbol ids and back.
pub struct OrderConverter;

/// The low bit of a symbol id: 0 for YES, 1 for NO.
pub open spec fn token_bit(token_type: TokenType) -> i32 {
    match token_type {
        TokenType::YES => 0,
        TokenType::NO => 1,
    }
}

/// `(market_id << 1) | token_bit`, computed on the low 32 bits of the market id.
pub open spec fn encode_symbol_spec(market_id: MarketId, token_type: TokenType) -> SymbolId {
    ((market_id as i32) << 1u32) | token_bit(token_type)
}

/// Market id and token of a symbol id: the id shifted right by one (sign
/// extended), and the low bit.
pub open spec fn decode_symbol_spec(symbol_id: SymbolId) -> (MarketId, TokenType) {
    ((symbol_id >> 1u32) as u64, if symbol_id & 1 == 0 { TokenType::YES } else { TokenType::NO })
}

/// Market ids that survive the round trip through a symbol id: those whose
/// value as a signed 64-bit number lies in `[-2^30, 2^30)`.
pub open spec fn encodable_market(market_id: MarketId) -> bool {
    market_id < 0x4000_0000 || market_id >= 0xFFFF_FFFF_C000_0000
}

/// `cmd` places `order` under id `order_id` at `timestamp` as a
/// good-till-cancel order with no trades yet.
pub open spec fn is_command_of(cmd: OrderCommand, order: PredictionOrder, order_id: OrderId, timestamp: i64) -> bool {
    &&& cmd.command == OrderCommandType::PlaceOrder
    &&& cmd.result_code == CommandResultCode::New
    &&& cmd.uid == order.maker
    &&& cmd.order_id == order_id
    &&& cmd.symbol == encode_symbol_spec(order.market_id, order.token_type)
    &&& cmd.price == order.price
    &&& cmd.reserve_price == order.price
    &&& cmd.size == order.making_amount
    &&& cmd.action == order.side
    &&& cmd.order_type == OrderType::Gtc
    &&& cmd.timestamp == timestamp
    &&& cmd.events_group == 0
    &&& cmd.service_flags == 0
    &&& cmd.stop_price == None::<i64>
    &&& cmd.visible_size == None::<i64>
    &&& cmd.expire_time == (if order.expiration == i64::MAX {
        None
    } else {
        Some(order.expiration)
    })
    &&& cmd.matcher_events@.len() == 0
}

impl OrderConverter {
    /// The command that places `order` under id `order_id` at `timestamp`:
    /// symbol from market and token, price and reserve price from the order,
    /// size from the token amount, good till cancel, no trades yet, and an
    /// expiry unless the order never expires.
    pub fn to_order_command(order: &PredictionOrder, order_id: OrderId, timestamp: i64) -> (r: OrderCommand)
        ensures
            is_command_of(r, *order, order_id, timestamp),
            order.market_id < 0x4000_0000 ==> r.symbol == 2 * order.market_id + token_bit(
                order.token_type,
            ),
    {
        let symbol_id = Self::encode_symbol_id(order.market_id, order.token_type);
        OrderCommand {
            command: OrderCommandType::PlaceOrder,
            result_code: CommandResultCode::New,
            uid: order.maker,
            order_id,
            symbol: symbol_id,
            price: order.price,
            reserve_price: order.price,
            size: order.making_amount,
            action: order.side,
            order_type: OrderType::Gtc,
            timestamp,
            events_group: 0,
            service_flags: 0,
            stop_price: None,
            visible_size: None,
            expire_time: if order.expiration == i64::MAX {
                None
            } else {
                Some(order.expiration)
            },
            matcher_events: Vec::with_capacity(4),
        }
    }

    /// `(market_id << 1) | token_bit` with the market id taken as a 32-bit
    /// symbol id; for markets below `2^30` this is `2 * market_id + token_bit`.
    pub fn encode_symbol_id(market_id: MarketId, token_type: TokenType) -> (r: SymbolId)
        ensures
            r == encode_symbol_spec(market_id, token_type),
            market_id < 0x4000_0000 ==> r == 2 * market_id + token_bit(token_type),
    {
        let token_bit: i32 = match token_type {
            TokenType::YES => 0,
            TokenType::NO => 1,
        };
        let r = ((market_id as SymbolId) << 1u32) | token_bit;
        proof {
            lemma_encode_small(market_id, token_bit);
        }
        r
    }

    /// Market id and token of `symbol_id`.
    pub fn decode_symbol_id(symbol_id: SymbolId) -> (r: (MarketId, TokenType))
        ensures
            r == decode_symbol_spec(symbol_id),
    {
        let market_id = (symbol_id >> 1u32) as MarketId;
        let token_type = if symbol_id & 1 == 0 {
            TokenType::YES
        } else {
            TokenType::NO
        };
        (market_id, token_type)
    }

    /// Whether `(market_id, token_type)` survives encoding and decoding.
    pub fn verify_encoding(market_id: MarketId, token_type: TokenType) -> (r: bool)
        ensures
            r == (decode_symbol_spec(encode_symbol_spec(market_id, token_type)) == (
                market_id,
                token_type,
            )),
            r == encodable_market(market_id),
    {
        let symbol_id = Self::encode_symbol_id(market_id, token_type);
        let (decoded_market, decoded_type) = Self::decode_symbol_id(symbol_id);
        proof {
            lemma_symbol_round_trip(market_id, token_type);
        }
        decoded_market == market_id && decoded_type == token_type
    }
}

/// For a small market id the shift is a doubling.
proof fn lemma_encode_small(market_id: u64, bit: i32)
    requires
        bit == 0 || bit == 1,
    ensures
        market_id < 0x4000_0000 ==> ((market_id as i32) << 1u32) | bit == 2 * market_id + bit,
{
    if market_id < 0x4000_0000 {
        let m = market_id as i32;
        assert(m == market_id);
        assert(0 <= m < 0x4000_0000 && (bit == 0 || bit == 1) ==> (m << 1u32) | bit == 2 * m + bit)
            by (bit_vector);
    }
}

/// A market id and token come back from their symbol id exactly when the
/// market id is encodable.
pub proof fn lemma_symbol_round_trip(market_id: MarketId, token_type: TokenType)
    ensures
        (decode_symbol_spec(encode_symbol_spec(market_id, token_type)) == (market_id, token_type))
            == encodable_market(market_id),
        decode_symbol_spec(encode_symbol_spec(market_id, token_type)).1 == token_type,
{
    let b = token_bit(token_type);
    let m = market_id;
    assert((b == 0 || b == 1) ==> ((((m as i32) << 1u32) | b) & 1 == b)) by (bit_vector);
    assert((b == 0 || b == 1) ==> (((((m as i32) << 1u32) | b) >> 1u32) as u64 == m <==> (m
        < 0x4000_0000u64 || m >= 0xFFFF_FFFF_C000_0000u64))) by (bit_vector);
}

} // verus!
