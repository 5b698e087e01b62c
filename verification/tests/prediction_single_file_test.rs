//! End-to-end tests of the unified book: normal trades, mints and merges,
//! snapshots and consistency checks.

use matching_core::api::{OrderAction, OrderCommand, Size, UserId};
use matching_core::prediction::{
    MarketId, OrderConverter, PredictionOrder, TokenType, UnifiedOrderBook,
};

/// Total traded size of a command.
fn total_filled(cmd: &OrderCommand) -> Size {
    cmd.matcher_events.iter().map(|e| e.size).sum()
}

fn setup_test_market() -> UnifiedOrderBook {
    UnifiedOrderBook::new(1)
}

fn create_test_order(
    market_id: MarketId,
    token_type: TokenType,
    user_id: UserId,
    making_amount: Size,
    taking_amount: Size,
    side: OrderAction,
) -> PredictionOrder {
    PredictionOrder::new(
        market_id,
        token_type,
        user_id,
        making_amount,
        taking_amount,
        side,
        i64::MAX,
    )
}

#[test]
fn test_normal_yes_bid_ask_full_fill() {
    let mut book = setup_test_market();

    let ask = create_test_order(1, TokenType::YES, 100, 100, 65_000_000, OrderAction::Ask);
    let mut ask_cmd = OrderConverter::to_order_command(&ask, 1, 1000);
    book.place_order(&mut ask_cmd);

    let bid = create_test_order(1, TokenType::YES, 200, 100, 65_000_000, OrderAction::Bid);
    let mut bid_cmd = OrderConverter::to_order_command(&bid, 2, 2000);
    book.place_order(&mut bid_cmd);

    assert_eq!(bid_cmd.matcher_events.len(), 1);
    let event = &bid_cmd.matcher_events[0];
    assert_eq!(event.size, 100);
    assert_eq!(event.price, 650_000);
    assert_eq!(total_filled(&bid_cmd), 100);
}

#[test]
fn test_normal_yes_bid_ask_partial_fill() {
    let mut book = setup_test_market();

    let ask = create_test_order(1, TokenType::YES, 100, 200, 130_000_000, OrderAction::Ask);
    let mut ask_cmd = OrderConverter::to_order_command(&ask, 1, 1000);
    book.place_order(&mut ask_cmd);

    let bid = create_test_order(1, TokenType::YES, 200, 100, 65_000_000, OrderAction::Bid);
    let mut bid_cmd = OrderConverter::to_order_command(&bid, 2, 2000);
    book.place_order(&mut bid_cmd);

    assert_eq!(bid_cmd.matcher_events.len(), 1);
    let event = &bid_cmd.matcher_events[0];
    assert_eq!(event.size, 100);
    assert_eq!(event.price, 650_000);
    assert_eq!(total_filled(&bid_cmd), 100);
}

#[test]
fn test_normal_no_bid_ask_full_fill() {
    let mut book = setup_test_market();

    let ask = create_test_order(1, TokenType::NO, 100, 100, 35_000_000, OrderAction::Ask);
    let mut ask_cmd = OrderConverter::to_order_command(&ask, 1, 1000);
    book.place_order(&mut ask_cmd);

    let bid = create_test_order(1, TokenType::NO, 200, 100, 35_000_000, OrderAction::Bid);
    let mut bid_cmd = OrderConverter::to_order_command(&bid, 2, 2000);
    book.place_order(&mut bid_cmd);

    assert_eq!(bid_cmd.matcher_events.len(), 1);
    assert_eq!(bid_cmd.matcher_events[0].size, 100);
    assert_eq!(total_filled(&bid_cmd), 100);
}

#[test]
fn test_mint_yes_no_bids_exact_match() {
    let mut book = setup_test_market();

    let no_bid = create_test_order(1, TokenType::NO, 100, 100, 40_000_000, OrderAction::Bid);
    let mut no_cmd = OrderConverter::to_order_command(&no_bid, 1, 1000);
    book.place_order(&mut no_cmd);

    let yes_bid = create_test_order(1, TokenType::YES, 200, 100, 60_000_000, OrderAction::Bid);
    let mut yes_cmd = OrderConverter::to_order_command(&yes_bid, 2, 2000);
    book.place_order(&mut yes_cmd);

    assert!(yes_cmd.matcher_events.len() > 0);
    let event = &yes_cmd.matcher_events[0];
    assert_eq!(event.size, 100);
}

#[test]
fn test_mint_yes_no_bids_surplus() {
    let mut book = setup_test_market();

    let no_bid = create_test_order(1, TokenType::NO, 100, 200, 70_000_000, OrderAction::Bid);
    let mut no_cmd = OrderConverter::to_order_command(&no_bid, 1, 1000);
    book.place_order(&mut no_cmd);

    let yes_bid = create_test_order(1, TokenType::YES, 200, 100, 65_000_000, OrderAction::Bid);
    let mut yes_cmd = OrderConverter::to_order_command(&yes_bid, 2, 2000);
    book.place_order(&mut yes_cmd);

    assert_eq!(yes_cmd.matcher_events.len(), 1);
    assert_eq!(yes_cmd.matcher_events[0].size, 100);
    assert_eq!(total_filled(&yes_cmd), 100);
}

#[test]
fn test_mint_no_yes_bids() {
    let mut book = setup_test_market();

    let yes_bid = create_test_order(1, TokenType::YES, 100, 100, 55_000_000, OrderAction::Bid);
    let mut yes_cmd = OrderConverter::to_order_command(&yes_bid, 1, 1000);
    book.place_order(&mut yes_cmd);

    let no_bid = create_test_order(1, TokenType::NO, 200, 100, 50_000_000, OrderAction::Bid);
    let mut no_cmd = OrderConverter::to_order_command(&no_bid, 2, 2000);
    book.place_order(&mut no_cmd);

    assert!(no_cmd.matcher_events.len() > 0);
}

#[test]
fn test_merge_yes_no_asks_exact_match() {
    let mut book = setup_test_market();

    let no_ask = create_test_order(1, TokenType::NO, 100, 100, 35_000_000, OrderAction::Ask);
    let mut no_cmd = OrderConverter::to_order_command(&no_ask, 1, 1000);
    book.place_order(&mut no_cmd);

    let yes_ask = create_test_order(1, TokenType::YES, 200, 100, 65_000_000, OrderAction::Ask);
    let mut yes_cmd = OrderConverter::to_order_command(&yes_ask, 2, 2000);
    book.place_order(&mut yes_cmd);

    assert!(yes_cmd.matcher_events.len() > 0);
    let event = &yes_cmd.matcher_events[0];
    assert_eq!(event.size, 100);
}

#[test]
fn test_merge_yes_no_asks_surplus() {
    let mut book = setup_test_market();

    let no_ask = create_test_order(1, TokenType::NO, 100, 200, 60_000_000, OrderAction::Ask);
    let mut no_cmd = OrderConverter::to_order_command(&no_ask, 1, 1000);
    book.place_order(&mut no_cmd);

    let yes_ask = create_test_order(1, TokenType::YES, 200, 100, 65_000_000, OrderAction::Ask);
    let mut yes_cmd = OrderConverter::to_order_command(&yes_ask, 2, 2000);
    book.place_order(&mut yes_cmd);

    assert_eq!(yes_cmd.matcher_events.len(), 1);
    assert_eq!(yes_cmd.matcher_events[0].size, 100);
    assert_eq!(total_filled(&yes_cmd), 100);
}

#[test]
fn test_merge_no_yes_asks() {
    let mut book = setup_test_market();

    let yes_ask = create_test_order(1, TokenType::YES, 100, 100, 60_000_000, OrderAction::Ask);
    let mut yes_cmd = OrderConverter::to_order_command(&yes_ask, 1, 1000);
    book.place_order(&mut yes_cmd);

    let no_ask = create_test_order(1, TokenType::NO, 200, 100, 35_000_000, OrderAction::Ask);
    let mut no_cmd = OrderConverter::to_order_command(&no_ask, 2, 2000);
    book.place_order(&mut no_cmd);

    assert!(no_cmd.matcher_events.len() > 0);
}

#[test]
fn test_mint_then_merge_sequence() {
    let mut book = setup_test_market();

    let no_bid = create_test_order(1, TokenType::NO, 100, 100, 45_000_000, OrderAction::Bid);
    let mut no_cmd = OrderConverter::to_order_command(&no_bid, 1, 1000);
    book.place_order(&mut no_cmd);

    let yes_bid = create_test_order(1, TokenType::YES, 200, 100, 60_000_000, OrderAction::Bid);
    let mut yes_cmd = OrderConverter::to_order_command(&yes_bid, 2, 2000);
    book.place_order(&mut yes_cmd);

    assert!(yes_cmd.matcher_events.len() > 0);

    let dummy_bid = create_test_order(1, TokenType::YES, 300, 50, 32_500_000, OrderAction::Bid);
    let mut dummy_bid_cmd = OrderConverter::to_order_command(&dummy_bid, 3, 3000);
    book.place_order(&mut dummy_bid_cmd);

    let no_ask = create_test_order(1, TokenType::NO, 400, 100, 40_000_000, OrderAction::Ask);
    let mut no_ask_cmd = OrderConverter::to_order_command(&no_ask, 4, 4000);
    book.place_order(&mut no_ask_cmd);

    let yes_ask = create_test_order(1, TokenType::YES, 500, 100, 65_000_000, OrderAction::Ask);
    let mut yes_ask_cmd = OrderConverter::to_order_command(&yes_ask, 5, 5000);
    book.place_order(&mut yes_ask_cmd);
}

#[test]
fn test_multi_user_matching() {
    let mut book = setup_test_market();

    let ask1 = create_test_order(1, TokenType::YES, 1, 200, 130_000_000, OrderAction::Ask);
    let mut ask1_cmd = OrderConverter::to_order_command(&ask1, 1, 1000);
    book.place_order(&mut ask1_cmd);

    let bid2 = create_test_order(1, TokenType::YES, 2, 100, 65_000_000, OrderAction::Bid);
    let mut bid2_cmd = OrderConverter::to_order_command(&bid2, 2, 2000);
    book.place_order(&mut bid2_cmd);

    let bid3 = create_test_order(1, TokenType::YES, 3, 100, 65_000_000, OrderAction::Bid);
    let mut bid3_cmd = OrderConverter::to_order_command(&bid3, 3, 3000);
    book.place_order(&mut bid3_cmd);

    assert_eq!(bid2_cmd.matcher_events.len(), 1);
    assert_eq!(bid3_cmd.matcher_events.len(), 1);
}

#[test]
fn test_price_boundaries() {
    let mut book = setup_test_market();

    let yes_ask = create_test_order(1, TokenType::YES, 100, 100, 99_000_000, OrderAction::Ask);
    let mut yes_ask_cmd = OrderConverter::to_order_command(&yes_ask, 1, 1000);
    book.place_order(&mut yes_ask_cmd);

    let no_ask = create_test_order(1, TokenType::NO, 200, 100, 1_000_000, OrderAction::Ask);
    let mut no_ask_cmd = OrderConverter::to_order_command(&no_ask, 2, 2000);
    book.place_order(&mut no_ask_cmd);

    assert!(no_ask_cmd.matcher_events.len() > 0);
}

#[test]
fn test_snapshot_and_restore() {
    let mut book = setup_test_market();

    let ask = create_test_order(1, TokenType::YES, 100, 100, 65_000_000, OrderAction::Ask);
    let mut ask_cmd = OrderConverter::to_order_command(&ask, 1, 1000);
    book.place_order(&mut ask_cmd);

    let bid = create_test_order(1, TokenType::YES, 200, 100, 65_000_000, OrderAction::Bid);
    let mut bid_cmd = OrderConverter::to_order_command(&bid, 2, 2000);
    book.place_order(&mut bid_cmd);

    let snapshot = book.take_snapshot(0, 0);

    let consistent = book.verify_cross_book_consistency().unwrap();
    assert!(consistent);

    let mut restored_book = setup_test_market();
    restored_book.restore_snapshot(snapshot).unwrap();

    let restored_consistent = restored_book.verify_cross_book_consistency().unwrap();
    assert!(restored_consistent);
}

#[test]
fn test_cross_book_snapshot_with_mint() {
    let mut book = setup_test_market();

    let no_bid = create_test_order(1, TokenType::NO, 100, 100, 40_000_000, OrderAction::Bid);
    let mut no_cmd = OrderConverter::to_order_command(&no_bid, 1, 1000);
    book.place_order(&mut no_cmd);

    let yes_bid = create_test_order(1, TokenType::YES, 200, 100, 60_000_000, OrderAction::Bid);
    let mut yes_cmd = OrderConverter::to_order_command(&yes_bid, 2, 2000);
    book.place_order(&mut yes_cmd);

    assert!(yes_cmd.matcher_events.len() > 0);

    let snapshot = book.take_snapshot(0, 0);

    let mut restored_book = setup_test_market();
    restored_book.restore_snapshot(snapshot).unwrap();

    let consistent = restored_book.verify_cross_book_consistency().unwrap();
    assert!(consistent);
}

#[test]
fn test_service_flags_cross_book_marking() {
    let mut book = setup_test_market();

    let no_bid = create_test_order(1, TokenType::NO, 100, 100, 40_000_000, OrderAction::Bid);
    let mut no_cmd = OrderConverter::to_order_command(&no_bid, 1, 1000);
    book.place_order(&mut no_cmd);

    let yes_bid = create_test_order(1, TokenType::YES, 200, 100, 60_000_000, OrderAction::Bid);
    let mut yes_cmd = OrderConverter::to_order_command(&yes_bid, 2, 2000);
    book.place_order(&mut yes_cmd);

    assert!(yes_cmd.matcher_events.len() > 0);
}

#[test]
fn test_cross_book_consistency_validation() {
    let mut book = setup_test_market();

    let yes_ask = create_test_order(1, TokenType::YES, 100, 100, 65_000_000, OrderAction::Ask);
    let mut yes_ask_cmd = OrderConverter::to_order_command(&yes_ask, 1, 1000);
    book.place_order(&mut yes_ask_cmd);

    let no_bid = create_test_order(1, TokenType::NO, 200, 100, 35_000_000, OrderAction::Bid);
    let mut no_bid_cmd = OrderConverter::to_order_command(&no_bid, 2, 2000);
    book.place_order(&mut no_bid_cmd);

    let consistent = book.verify_cross_book_consistency().unwrap();
    assert!(consistent);
}
