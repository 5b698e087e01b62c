//! Unit tests of the prediction-market types, conversion, books and replay.

use matching_core::api::{CommandResultCode, OrderAction, OrderCommandType, OrderType};
use matching_core::prediction::{
    EventReplayManager, EventSequenceGenerator, OrderConverter, PredictionOrder, ReplayEvent,
    TokenType, UnifiedOrderBook, PRICE_SCALE,
};

#[test]
fn test_token_type_complement() {
    assert_eq!(TokenType::YES.complement(), TokenType::NO);
    assert_eq!(TokenType::NO.complement(), TokenType::YES);
    assert_eq!(TokenType::YES.complement().complement(), TokenType::YES);
}

#[test]
fn test_order_creation() {
    let order = PredictionOrder::new(
        1,
        TokenType::YES,
        100,
        100,
        65_000_000,
        OrderAction::Bid,
        i64::MAX,
    );

    assert_eq!(order.market_id, 1);
    assert_eq!(order.token_type, TokenType::YES);
    assert_eq!(order.maker, 100);
    assert_eq!(order.making_amount, 100);
    assert_eq!(order.taking_amount, 65_000_000);
    assert_eq!(order.price, 650_000);
    assert_eq!(order.side, OrderAction::Bid);
}

#[test]
fn test_order_with_salt() {
    let order = PredictionOrder::new(1, TokenType::YES, 100, 100, 50_000_000, OrderAction::Bid, i64::MAX)
        .with_salt(12345);

    assert_eq!(order.salt, 12345);
}

#[test]
fn test_complement_price() {
    let order = PredictionOrder::new(1, TokenType::YES, 100, 100, 65_000_000, OrderAction::Bid, i64::MAX);
    assert_eq!(order.complement_price(), 350_000);

    let order2 = PredictionOrder::new(1, TokenType::NO, 100, 100, 35_000_000, OrderAction::Bid, i64::MAX);
    assert_eq!(order2.complement_price(), 650_000);
}

#[test]
fn test_symbol_id_encoding_yes() {
    assert_eq!(OrderConverter::encode_symbol_id(1, TokenType::YES), 2);
    assert_eq!(OrderConverter::encode_symbol_id(100, TokenType::YES), 200);
    assert_eq!(OrderConverter::encode_symbol_id(0, TokenType::YES), 0);
}

#[test]
fn test_symbol_id_encoding_no() {
    assert_eq!(OrderConverter::encode_symbol_id(1, TokenType::NO), 3);
    assert_eq!(OrderConverter::encode_symbol_id(100, TokenType::NO), 201);
    assert_eq!(OrderConverter::encode_symbol_id(0, TokenType::NO), 1);
}

#[test]
fn test_symbol_id_decoding() {
    let (mid, tt) = OrderConverter::decode_symbol_id(2);
    assert_eq!(mid, 1);
    assert_eq!(tt, TokenType::YES);

    let (mid, tt) = OrderConverter::decode_symbol_id(200);
    assert_eq!(mid, 100);
    assert_eq!(tt, TokenType::YES);

    let (mid, tt) = OrderConverter::decode_symbol_id(3);
    assert_eq!(mid, 1);
    assert_eq!(tt, TokenType::NO);

    let (mid, tt) = OrderConverter::decode_symbol_id(201);
    assert_eq!(mid, 100);
    assert_eq!(tt, TokenType::NO);
}

#[test]
fn test_to_order_command() {
    let order = PredictionOrder::new(
        1,
        TokenType::YES,
        100,
        100,
        65_000_000,
        OrderAction::Bid,
        i64::MAX,
    );

    let cmd = OrderConverter::to_order_command(&order, 12345, 9999);

    assert_eq!(cmd.command, OrderCommandType::PlaceOrder);
    assert_eq!(cmd.result_code, CommandResultCode::New);
    assert_eq!(cmd.uid, 100);
    assert_eq!(cmd.order_id, 12345);
    assert_eq!(cmd.symbol, 2);
    assert_eq!(cmd.price, 650_000);
    assert_eq!(cmd.size, 100);
    assert_eq!(cmd.action, OrderAction::Bid);
    assert_eq!(cmd.order_type, OrderType::Gtc);
    assert_eq!(cmd.timestamp, 9999);
    assert_eq!(cmd.expire_time, None);
    assert!(cmd.matcher_events.is_empty());
}

#[test]
fn test_unified_orderbook_creation() {
    let market = UnifiedOrderBook::new(1);
    assert_eq!(market.market_id, 1);
    assert_eq!(market.price_scale, PRICE_SCALE);
}

#[test]
fn test_unified_orderbook_complement_price() {
    let market = UnifiedOrderBook::new(1);

    assert_eq!(market.complement_price(650_000), 350_000);
    assert_eq!(market.complement_price(500_000), 500_000);
    assert_eq!(market.complement_price(0), 1_000_000);
    assert_eq!(market.complement_price(1_000_000), 0);
}

#[test]
fn test_are_complementary() {
    let market = UnifiedOrderBook::new(1);

    assert!(market.are_complementary(650_000, 350_000));
    assert!(market.are_complementary(500_000, 500_000));
    assert!(market.are_complementary(0, 1_000_000));

    assert!(!market.are_complementary(600_000, 350_000));
    assert!(!market.are_complementary(650_000, 400_000));
}

#[test]
fn test_get_l2_data() {
    let market = UnifiedOrderBook::new(1);

    let yes_l2 = market.get_l2_data(TokenType::YES, 10);
    assert_eq!(yes_l2.ask_prices.len(), 0);
    assert_eq!(yes_l2.bid_prices.len(), 0);

    let no_l2 = market.get_l2_data(TokenType::NO, 10);
    assert_eq!(no_l2.ask_prices.len(), 0);
    assert_eq!(no_l2.bid_prices.len(), 0);
}

#[test]
fn test_event_sequence_generator() {
    let mut gen = EventSequenceGenerator::new(100);
    assert_eq!(gen.next(), 100);
    assert_eq!(gen.next(), 101);
    assert_eq!(gen.next(), 102);
    assert_eq!(gen.current(), 103);
}

#[test]
fn test_replay_event_from_command() {
    let order = PredictionOrder::new(
        1,
        TokenType::YES,
        100,
        100,
        65_000_000,
        OrderAction::Bid,
        i64::MAX,
    );
    let cmd = OrderConverter::to_order_command(&order, 12345, 9999);

    let replay_event = ReplayEvent::from_command(100, &cmd);
    assert_eq!(replay_event.sequence, 100);
    assert_eq!(replay_event.timestamp, 9999);
    assert_eq!(replay_event.command.order_id, 12345);
}

#[test]
fn test_event_replay_manager_record_and_replay() {
    let market = UnifiedOrderBook::new(1);
    let snapshot = market.take_snapshot(0, 0);
    let mut manager = EventReplayManager::new(snapshot, 1);

    let order1 = PredictionOrder::new(1, TokenType::YES, 100, 100, 65_000_000, OrderAction::Bid, i64::MAX);
    let cmd1 = OrderConverter::to_order_command(&order1, 1, 1000);
    let seq1 = manager.record_event(&cmd1, vec![]);
    assert_eq!(seq1, 1);

    let order2 = PredictionOrder::new(1, TokenType::NO, 101, 50, 35_000_000, OrderAction::Ask, i64::MAX);
    let cmd2 = OrderConverter::to_order_command(&order2, 2, 1001);
    let seq2 = manager.record_event(&cmd2, vec![]);
    assert_eq!(seq2, 2);

    assert_eq!(manager.event_count(), 2);

    let events = manager.replay_from(0).unwrap();
    assert_eq!(events.len(), 2);
    assert_eq!(events[0].sequence, 1);
    assert_eq!(events[1].sequence, 2);
}

#[test]
fn test_event_replay_manager_replay_to_snapshot() {
    let market = UnifiedOrderBook::new(1);
    let snapshot = market.take_snapshot(0, 0);
    let mut manager = EventReplayManager::new(snapshot, 1);

    for i in 1..=5 {
        let order = PredictionOrder::new(1, TokenType::YES, 100 + i as u64, 100, 65_000_000, OrderAction::Bid, i64::MAX);
        let cmd = OrderConverter::to_order_command(&order, i as u64, 1000 + i as i64);
        manager.record_event(&cmd, vec![]);
    }

    let events = manager.replay_to_snapshot(3).unwrap();
    assert_eq!(events.len(), 3);
    assert_eq!(events[0].sequence, 3);
    assert_eq!(events[1].sequence, 4);
    assert_eq!(events[2].sequence, 5);
}

#[test]
fn test_snapshot_with_event_metadata() {
    let market = UnifiedOrderBook::new(42);
    let snapshot = market.take_snapshot(12345, 4096);

    assert_eq!(snapshot.event_sequence, 12345);
    assert_eq!(snapshot.wal_offset, 4096);
    assert!(snapshot.timestamp > 0);

    assert!(snapshot.checksum > 0);
}
