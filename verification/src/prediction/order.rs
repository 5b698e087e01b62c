//! Prediction-market orders.

use vstd::prelude::*;
use crate::api::{OrderAction, Price, Size, UserId};
use super::{MarketId, TokenType, PRICE_SCALE};

verus! {

/// `a / b` rounded toward zero, as Rust divides integers.
pub open spec fn div_toward_zero(a: int, b: int) -> int {
    if a >= 0 {
        a / b
    } else {
        -((-a) / b)
    }
}

/// The price of an order that takes `taking` collateral for `making` tokens:
/// `taking / making` rounded toward zero, or 0 when `making` is not positive.
pub open spec fn order_price(making: Size, taking: Size) -> Price {
    if making > 0 {
        div_toward_zero(taking as int, making as int) as i64
    } else {
        0
    }
}

/// A prediction-market order (unsigned).
#[derive(Debug, Clone, Copy)]
pub struct PredictionOrder {
    /// Market.
    pub market_id: MarketId,
    /// Token bought or sold.
    pub token_type: TokenType,
    /// Owner.
    pub maker: UserId,
    /// Number of tokens.
    pub making_amount: Size,
    /// Collateral amount (scaled by `PRICE_SCALE`).
    pub taking_amount: Size,
    /// Price per token, `taking_amount / making_amount`.
    pub price: Price,
    /// Buy or sell.
    pub side: OrderAction,
    /// Expiry time; `i64::MAX` never expires.
    pub expiration: i64,
    /// Nonce that keeps otherwise equal orders apart.
    pub salt: u64,
}

impl PredictionOrder {
    /// An order with its price derived from the amounts and salt 0.
    pub fn new(
        market_id: MarketId,
        token_type: TokenType,
        maker: UserId,
        making_amount: Size,
        taking_amount: Size,
        side: OrderAction,
        expiration: i64,
    ) -> (r: Self)
        ensures
            r == (PredictionOrder {
                market_id,
                token_type,
                maker,
                making_amount,
                taking_amount,
                price: order_price(making_amount, taking_amount),
                side,
                expiration,
                salt: 0,
            }),
    {
        let price = if making_amount > 0 {
            taking_amount / making_amount
        } else {
            0
        };
        Self {
            market_id,
            token_type,
            maker,
            making_amount,
            taking_amount,
            price,
            side,
            expiration,
            salt: 0,
        }
    }

    /// The same order with salt `salt`.
    pub fn with_salt(self, salt: u64) -> (r: Self)
        ensures
            r == (PredictionOrder { salt, ..self }),
    {
        let mut order = self;
        order.salt = salt;
        order
    }

    /// The price lies in `[0, PRICE_SCALE]`.
    pub fn is_valid_price(&self) -> (r: bool)
        ensures
            r == (0 <= self.price <= PRICE_SCALE),
    {
        self.price >= 0 && self.price <= PRICE_SCALE
    }

    /// The order has expired at `current_time`; an expiration of `i64::MAX`
    /// never expires.
    pub fn is_expired(&self, current_time: i64) -> (r: bool)
        ensures
            r == (self.expiration != i64::MAX && current_time >= self.expiration),
    {
        if self.expiration == i64::MAX {
            false
        } else {
            current_time >= self.expiration
        }
    }

    /// The price of the complementary token: `PRICE_SCALE - price`.
    pub fn complement_price(&self) -> (r: Price)
        requires
            PRICE_SCALE - self.price <= i64::MAX,
        ensures
            r == PRICE_SCALE - self.price,
    {
        PRICE_SCALE - self.price
    }
}

} // verus!
