//! Trade events of prediction markets and replayable log entries.

use vstd::prelude::*;
use crate::api::{MatcherTradeEvent, OrderCommand, OrderId, Price, Size, UserId};
use super::{complement_of, MatchType, TokenType};

verus! {

/// A book trade tagged with its kind of match and the tokens involved.
#[derive(Debug, Clone, Copy)]
pub struct PredictionTradeEvent {
    /// The trade.
    pub base_event: MatcherTradeEvent,
    /// Normal, mint or merge.
    pub match_type: MatchType,
    /// Token of the incoming order.
    pub token_type: TokenType,
    /// Token of the counterparty: the complement of `token_type`.
    pub counter_token_type: TokenType,
}

/// A processed command with its sequence number and trades, for replay.
#[derive(Debug)]
pub struct ReplayEvent {
    /// Position in the event sequence.
    pub sequence: u64,
    /// Time of the command.
    pub timestamp: i64,
    /// The command's events group.
    pub events_group: u64,
    /// The command's service flags.
    pub service_flags: i32,
    /// The command itself.
    pub command: OrderCommand,
    /// The trades it produced.
    pub trade_events: Vec<MatcherTradeEvent>,
}

impl ReplayEvent {
    /// `self` and `other` log the same thing: equal numbers, times, groups,
    /// flags and trades, and commands that agree on every field and trade.
    pub open spec fn same_event(self, other: ReplayEvent) -> bool {
        &&& self.sequence == other.sequence
        &&& self.timestamp == other.timestamp
        &&& self.events_group == other.events_group
        &&& self.service_flags == other.service_flags
        &&& self.command.same_but_events(other.command)
        &&& self.command.matcher_events@ == other.command.matcher_events@
        &&& self.trade_events@ == other.trade_events@
    }
}

impl Clone for ReplayEvent {
    fn clone(&self) -> (r: Self)
        ensures
            r.same_event(*self),
    {
        ReplayEvent {
            sequence: self.sequence,
            timestamp: self.timestamp,
            events_group: self.events_group,
            service_flags: self.service_flags,
            command: self.command.clone(),
            trade_events: self.trade_events.clone(),
        }
    }
}

impl ReplayEvent {
    /// The replay entry of `command` under number `sequence`, with the
    /// command's own trades.
    pub fn from_command(sequence: u64, command: &OrderCommand) -> (r: Self)
        ensures
            r.sequence == sequence,
            r.timestamp == command.timestamp,
            r.events_group == command.events_group,
            r.service_flags == command.service_flags,
            r.command.same_but_events(*command),
            r.command.matcher_events@ == command.matcher_events@,
            r.trade_events@ == command.matcher_events@,
    {
        Self {
            sequence,
            timestamp: command.timestamp,
            events_group: command.events_group,
            service_flags: command.service_flags,
            command: command.clone(),
            trade_events: command.matcher_events.clone(),
        }
    }
}

impl PredictionTradeEvent {
    /// Tags `base_event`; the counterparty holds the complementary token.
    pub fn from_base_event(base_event: MatcherTradeEvent, match_type: MatchType, token_type: TokenType) -> (r: Self)
        ensures
            r == (PredictionTradeEvent {
                base_event,
                match_type,
                token_type,
                counter_token_type: complement_of(token_type),
            }),
    {
        Self { base_event, match_type, token_type, counter_token_type: token_type.complement() }
    }

    /// A normal trade.
    pub fn new_normal(base_event: MatcherTradeEvent, token_type: TokenType) -> (r: Self)
        ensures
            r == (PredictionTradeEvent {
                base_event,
                match_type: MatchType::Normal,
                token_type,
                counter_token_type: complement_of(token_type),
            }),
    {
        Self::from_base_event(base_event, MatchType::Normal, token_type)
    }

    /// A mint.
    pub fn new_mint(base_event: MatcherTradeEvent, token_type: TokenType) -> (r: Self)
        ensures
            r == (PredictionTradeEvent {
                base_event,
                match_type: MatchType::Mint,
                token_type,
                counter_token_type: complement_of(token_type),
            }),
    {
        Self::from_base_event(base_event, MatchType::Mint, token_type)
    }

    /// A merge.
    pub fn new_merge(base_event: MatcherTradeEvent, token_type: TokenType) -> (r: Self)
        ensures
            r == (PredictionTradeEvent {
                base_event,
                match_type: MatchType::Merge,
                token_type,
                counter_token_type: complement_of(token_type),
            }),
    {
        Self::from_base_event(base_event, MatchType::Merge, token_type)
    }

    /// Quantity traded.
    pub fn size(&self) -> (r: Size)
        ensures
            r == self.base_event.size,
    {
        self.base_event.size
    }

    /// Price of the trade.
    pub fn price(&self) -> (r: Price)
        ensures
            r == self.base_event.price,
    {
        self.base_event.price
    }

    /// The counterparty's order.
    pub fn counterparty_order_id(&self) -> (r: OrderId)
        ensures
            r == self.base_event.matched_order_id,
    {
        self.base_event.matched_order_id
    }

    /// The counterparty.
    pub fn counterparty_user_id(&self) -> (r: UserId)
        ensures
            r == self.base_event.matched_order_uid,
    {
        self.base_event.matched_order_uid
    }
}

} // verus!
