//! Concrete checks of the library's laws and edge cases.

use matching_core::api::{
    CommandResultCode, CoreSymbolSpecification, OrderAction, OrderCommand, OrderCommandType,
    OrderType, SymbolType,
};
use matching_core::book::{DirectOrderBook, RestingOrder};
use std::hash::Hasher;
use matching_core::prediction::match_type_encoding;
use matching_core::prediction::{
    EventReplayManager, MarketConfig, MatchType, OrderConverter, PredictionError, PredictionOrder,
    PredictionTradeEvent, RecoveryManager, TokenType, UnifiedOrderBook, PRICE_SCALE,
};

fn order(token: TokenType, user: u64, size: i64, price: i64, side: OrderAction) -> PredictionOrder {
    PredictionOrder::new(1, token, user, size, size * price, side, i64::MAX)
}

fn place(book: &mut UnifiedOrderBook, o: &PredictionOrder, id: u64) -> OrderCommand {
    let mut cmd = OrderConverter::to_order_command(o, id, 1000 + id as i64);
    let r = book.place_order(&mut cmd);
    assert_eq!(r, CommandResultCode::Success);
    cmd
}

fn spec() -> CoreSymbolSpecification {
    CoreSymbolSpecification {
        symbol_id: 2,
        symbol_type: SymbolType::CurrencyExchangePair,
        base_currency: 0,
        quote_currency: 1,
        base_scale_k: 1,
        quote_scale_k: PRICE_SCALE,
        taker_fee: 0,
        maker_fee: 0,
        margin_buy: 0,
        margin_sell: 0,
    }
}

fn resting(order_id: u64, price: i64, size: i64) -> RestingOrder {
    RestingOrder { order_id, uid: 7, price, size, reserve_price: price, timestamp: 0 }
}

fn gtc(order_id: u64, uid: u64, action: OrderAction, price: i64, size: i64) -> OrderCommand {
    OrderCommand {
        command: OrderCommandType::PlaceOrder,
        result_code: CommandResultCode::New,
        uid,
        order_id,
        symbol: 2,
        price,
        reserve_price: price,
        size,
        action,
        order_type: OrderType::Gtc,
        timestamp: 0,
        events_group: 0,
        service_flags: 0,
        stop_price: None,
        visible_size: None,
        expire_time: None,
        matcher_events: Vec::new(),
    }
}

#[test]
fn complement_is_an_involution() {
    for t in [TokenType::YES, TokenType::NO] {
        assert_eq!(t.complement().complement(), t);
        assert_ne!(t.complement(), t);
    }
}

#[test]
fn match_type_encoding_round_trips() {
    for mt in [MatchType::Normal, MatchType::Mint, MatchType::Merge] {
        for counter in [0u64, 12345, u64::MAX] {
            let g = match_type_encoding::encode(mt, counter);
            assert_eq!(match_type_encoding::decode(g), Some(mt));
            assert_eq!(g & match_type_encoding::COUNTER_MASK, counter & match_type_encoding::COUNTER_MASK);
        }
    }
    assert_eq!(match_type_encoding::encode(MatchType::Mint, 12345) & match_type_encoding::MASK, match_type_encoding::MINT);
    assert_eq!(match_type_encoding::encode(MatchType::Merge, 1), 0x0300000000000001);
    assert_eq!(match_type_encoding::decode(0), None);
    assert_eq!(match_type_encoding::decode(0x0400000000000000), None);
}

#[test]
fn symbol_ids_round_trip_for_small_markets_only() {
    assert!(OrderConverter::verify_encoding(12345, TokenType::YES));
    assert!(OrderConverter::verify_encoding(12345, TokenType::NO));
    assert!(OrderConverter::verify_encoding((1 << 30) - 1, TokenType::NO));
    assert!(!OrderConverter::verify_encoding(1 << 30, TokenType::YES));
    assert!(!OrderConverter::verify_encoding(1 << 32, TokenType::YES));
    assert!(OrderConverter::verify_encoding(u64::MAX, TokenType::NO));
    assert_eq!(OrderConverter::decode_symbol_id(-1), (u64::MAX, TokenType::NO));
}

#[test]
fn order_price_rounds_toward_zero() {
    let o = PredictionOrder::new(1, TokenType::YES, 1, 3, -7, OrderAction::Bid, 5);
    assert_eq!(o.price, -2);
    let o = PredictionOrder::new(1, TokenType::YES, 1, 0, 7, OrderAction::Bid, 5);
    assert_eq!(o.price, 0);
    let o = PredictionOrder::new(1, TokenType::YES, 1, 3, 7, OrderAction::Bid, 5);
    assert_eq!(o.price, 2);
    assert_eq!(o.salt, 0);
}

#[test]
fn order_checks() {
    let o = PredictionOrder::new(1, TokenType::YES, 1, 1, PRICE_SCALE, OrderAction::Bid, 100);
    assert!(o.is_valid_price());
    assert!(!o.is_expired(99));
    assert!(o.is_expired(100));
    let o = PredictionOrder::new(1, TokenType::YES, 1, 1, PRICE_SCALE + 1, OrderAction::Bid, i64::MAX);
    assert!(!o.is_valid_price());
    assert!(!o.is_expired(i64::MAX));
    let cmd = OrderConverter::to_order_command(
        &PredictionOrder::new(3, TokenType::NO, 1, 10, 10, OrderAction::Ask, 77),
        9,
        1,
    );
    assert_eq!(cmd.expire_time, Some(77));
    assert_eq!(cmd.symbol, 7);
    assert_eq!(cmd.reserve_price, 1);
}

#[test]
fn trade_event_tags() {
    let base = matching_core::api::MatcherTradeEvent::new_trade(5, 400_000, 9, 3, 600_000);
    let e = PredictionTradeEvent::new_mint(base, TokenType::YES);
    assert_eq!(e.match_type, MatchType::Mint);
    assert_eq!(e.counter_token_type, TokenType::NO);
    assert_eq!(e.size(), 5);
    assert_eq!(e.price(), 400_000);
    assert_eq!(e.counterparty_order_id(), 9);
    assert_eq!(e.counterparty_user_id(), 3);
    assert_eq!(PredictionTradeEvent::new_merge(base, TokenType::NO).counter_token_type, TokenType::YES);
    assert_eq!(PredictionTradeEvent::new_normal(base, TokenType::NO).match_type, MatchType::Normal);
}

#[test]
fn price_then_time_priority() {
    let mut book = DirectOrderBook::new(spec());
    let mut a1 = gtc(1, 10, OrderAction::Ask, 600, 5);
    let mut a2 = gtc(2, 11, OrderAction::Ask, 500, 5);
    let mut a3 = gtc(3, 12, OrderAction::Ask, 500, 5);
    book.new_order(&mut a1);
    book.new_order(&mut a2);
    book.new_order(&mut a3);
    let asks: Vec<u64> = book.ask_orders().iter().map(|o| o.order_id).collect();
    assert_eq!(asks, vec![2, 3, 1]);

    let mut bid = gtc(4, 20, OrderAction::Bid, 600, 12);
    book.new_order(&mut bid);
    let fills: Vec<(u64, i64, i64)> =
        bid.matcher_events.iter().map(|e| (e.matched_order_id, e.size, e.price)).collect();
    assert_eq!(fills, vec![(2, 5, 500), (3, 5, 500), (1, 2, 600)]);
    assert_eq!(bid.size, 12);
    assert_eq!(book.ask_orders().len(), 1);
    assert_eq!(book.ask_orders()[0].size, 3);
    assert_eq!(book.get_total_ask_volume(), 3);
    assert_eq!(book.get_total_bid_volume(), 0);
}

#[test]
fn leftover_rests_and_book_never_crosses() {
    let mut book = DirectOrderBook::new(spec());
    let mut a = gtc(1, 10, OrderAction::Ask, 500, 5);
    book.new_order(&mut a);
    let mut b = gtc(2, 11, OrderAction::Bid, 550, 8);
    book.new_order(&mut b);
    assert_eq!(b.matcher_events.len(), 1);
    assert_eq!(book.get_total_bid_volume(), 3);
    assert_eq!(book.bid_orders()[0].price, 550);
    let mut a2 = gtc(3, 12, OrderAction::Ask, 560, 1);
    book.new_order(&mut a2);
    assert!(book.bid_orders()[0].price < book.ask_orders()[0].price);

    let mut ioc = gtc(4, 13, OrderAction::Ask, 600, 9);
    ioc.order_type = OrderType::Ioc;
    book.new_order(&mut ioc);
    assert!(ioc.matcher_events.is_empty());
    assert_eq!(book.get_total_ask_volume(), 1);
}

#[test]
fn duplicate_id_does_not_rest() {
    let mut book = DirectOrderBook::new(spec());
    let mut a = gtc(1, 10, OrderAction::Ask, 500, 5);
    book.new_order(&mut a);
    let mut dup = gtc(1, 10, OrderAction::Bid, 400, 5);
    book.new_order(&mut dup);
    assert_eq!(book.get_total_bid_volume(), 0);
    assert!(book.has_order(1));
}

#[test]
fn levels_and_buckets() {
    let mut book = DirectOrderBook::new(spec());
    for (id, price, size) in [(1u64, 500i64, 2i64), (2, 500, 3), (3, 510, 1), (4, 520, 4)] {
        let mut a = gtc(id, 1, OrderAction::Ask, price, size);
        book.new_order(&mut a);
    }
    let mut b = gtc(5, 2, OrderAction::Bid, 450, 6);
    book.new_order(&mut b);
    assert_eq!(book.get_ask_buckets_count(), 3);
    assert_eq!(book.get_bid_buckets_count(), 1);
    let l2 = book.get_l2_data(2);
    assert_eq!(l2.ask_prices, vec![500, 510]);
    assert_eq!(l2.ask_volumes, vec![5, 1]);
    assert_eq!(l2.bid_prices, vec![450]);
    assert_eq!(l2.bid_volumes, vec![6]);
}

#[test]
fn cancel_removes_only_the_owners_order() {
    let mut book = DirectOrderBook::new(spec());
    let mut a = gtc(1, 10, OrderAction::Ask, 500, 5);
    book.new_order(&mut a);
    let mut wrong_user = gtc(1, 99, OrderAction::Ask, 0, 0);
    assert_eq!(book.cancel_order(&mut wrong_user), CommandResultCode::MatchingUnknownOrderId);
    let mut c = gtc(1, 10, OrderAction::Ask, 0, 0);
    assert_eq!(book.cancel_order(&mut c), CommandResultCode::Success);
    assert_eq!(book.get_total_ask_volume(), 0);
    assert_eq!(book.cancel_order(&mut c), CommandResultCode::MatchingUnknownOrderId);
}

#[test]
fn from_parts_accepts_only_well_formed_books() {
    assert!(DirectOrderBook::from_parts(spec(), vec![resting(1, 500, 1), resting(2, 510, 1)], vec![resting(3, 400, 1)]).is_some());
    assert!(DirectOrderBook::from_parts(spec(), vec![resting(1, 510, 1), resting(2, 500, 1)], vec![]).is_none());
    assert!(DirectOrderBook::from_parts(spec(), vec![resting(1, 500, 0)], vec![]).is_none());
    assert!(DirectOrderBook::from_parts(spec(), vec![resting(1, 500, 1)], vec![resting(1, 400, 1)]).is_none());
    assert!(DirectOrderBook::from_parts(spec(), vec![resting(1, 500, 1)], vec![resting(2, 500, 1)]).is_none());
    assert!(DirectOrderBook::from_parts(spec(), vec![resting(1, 500, i64::MAX), resting(2, 500, 1)], vec![]).is_none());
}

#[test]
fn wrong_market_is_refused() {
    let mut book = UnifiedOrderBook::new(1);
    let o = PredictionOrder::new(2, TokenType::YES, 1, 10, 10 * 500_000, OrderAction::Bid, i64::MAX);
    let mut cmd = OrderConverter::to_order_command(&o, 1, 1);
    assert_eq!(book.place_order(&mut cmd), CommandResultCode::MatchingInvalidOrderBookId);
    assert_eq!(cmd.result_code, CommandResultCode::MatchingInvalidOrderBookId);
    assert!(book.get_l2_data(TokenType::YES, 10).bid_prices.is_empty());
}

#[test]
fn mint_needs_prices_summing_to_at_least_one() {
    let mut book = UnifiedOrderBook::new(1);
    place(&mut book, &order(TokenType::NO, 1, 10, 300_000, OrderAction::Bid), 1);
    let cmd = place(&mut book, &order(TokenType::YES, 2, 10, 600_000, OrderAction::Bid), 2);
    assert!(cmd.matcher_events.is_empty());
    let cmd = place(&mut book, &order(TokenType::YES, 3, 10, 700_000, OrderAction::Bid), 3);
    assert_eq!(cmd.matcher_events.len(), 1);
    assert_eq!(cmd.matcher_events[0].price, 300_000);
    assert!(700_000 + cmd.matcher_events[0].price >= PRICE_SCALE);
    assert_eq!(cmd.matcher_events[0].bidder_hold_price, 700_000);
}

#[test]
fn merge_needs_prices_summing_to_at_most_one() {
    let mut book = UnifiedOrderBook::new(1);
    place(&mut book, &order(TokenType::NO, 1, 10, 400_000, OrderAction::Ask), 1);
    let cmd = place(&mut book, &order(TokenType::YES, 2, 10, 700_000, OrderAction::Ask), 2);
    assert!(cmd.matcher_events.is_empty());
    let cmd = place(&mut book, &order(TokenType::YES, 3, 10, 600_000, OrderAction::Ask), 3);
    assert_eq!(cmd.matcher_events.len(), 1);
    assert!(600_000 + cmd.matcher_events[0].price <= PRICE_SCALE);
}

#[test]
fn fills_never_exceed_the_order_size() {
    let mut book = UnifiedOrderBook::new(1);
    place(&mut book, &order(TokenType::NO, 2, 100, 500_000, OrderAction::Bid), 2);
    place(&mut book, &order(TokenType::YES, 1, 4, 500_000, OrderAction::Ask), 1);
    let cmd = place(&mut book, &order(TokenType::YES, 3, 10, 500_000, OrderAction::Bid), 3);
    let total: i64 = cmd.matcher_events.iter().map(|e| e.size).sum();
    assert_eq!(total, 10);
    assert_eq!(cmd.matcher_events[0].size, 4);
    assert_eq!(cmd.matcher_events[1].size, 6);
    assert_eq!(cmd.size, 0);
}

#[test]
fn size_drops_by_what_was_filled() {
    let mut book = UnifiedOrderBook::new(1);
    place(&mut book, &order(TokenType::YES, 1, 4, 500_000, OrderAction::Ask), 1);
    let cmd = place(&mut book, &order(TokenType::YES, 2, 10, 500_000, OrderAction::Bid), 2);
    assert_eq!(cmd.matcher_events.len(), 1);
    assert_eq!(cmd.size, 6);
    let cmd = place(&mut book, &order(TokenType::NO, 3, 7, 100_000, OrderAction::Bid), 3);
    assert!(cmd.matcher_events.is_empty());
    assert_eq!(cmd.size, 7);
    let o = PredictionOrder::new(2, TokenType::YES, 1, 10, 10 * 500_000, OrderAction::Ask, i64::MAX);
    let mut cmd = OrderConverter::to_order_command(&o, 9, 1);
    assert_eq!(book.place_order(&mut cmd), CommandResultCode::MatchingInvalidOrderBookId);
    assert_eq!(cmd.size, 10);
}

#[test]
fn mirror_orders_never_rest() {
    let mut book = UnifiedOrderBook::new(1);
    place(&mut book, &order(TokenType::NO, 1, 4, 400_000, OrderAction::Bid), 1);
    let cmd = place(&mut book, &order(TokenType::YES, 2, 10, 700_000, OrderAction::Bid), 2);
    assert_eq!(cmd.matcher_events.len(), 1);
    assert_eq!(cmd.matcher_events[0].size, 4);
    assert!(book.get_l2_data(TokenType::NO, 10).ask_prices.is_empty());
    assert!(book.get_l2_data(TokenType::NO, 10).bid_prices.is_empty());
    assert_eq!(book.get_l2_data(TokenType::YES, 10).bid_volumes, vec![10]);
}

#[test]
fn cancel_through_the_unified_book() {
    let mut book = UnifiedOrderBook::new(1);
    let mut cmd = place(&mut book, &order(TokenType::NO, 1, 10, 300_000, OrderAction::Bid), 1);
    assert_eq!(book.get_l2_data(TokenType::NO, 5).bid_volumes, vec![10]);
    assert_eq!(book.cancel_order(&mut cmd), CommandResultCode::Success);
    assert!(book.get_l2_data(TokenType::NO, 5).bid_volumes.is_empty());
}

#[test]
fn snapshot_restores_book_contents() {
    let mut book = UnifiedOrderBook::new(5);
    let o = PredictionOrder::new(5, TokenType::YES, 1, 10, 10 * 400_000, OrderAction::Bid, i64::MAX);
    let mut cmd = OrderConverter::to_order_command(&o, 1, 1);
    book.place_order(&mut cmd);
    let snapshot = book.take_snapshot(7, 8);
    let mut other = UnifiedOrderBook::new(5);
    assert!(other.restore_snapshot(snapshot).is_ok());
    let l2 = other.get_l2_data(TokenType::YES, 10);
    assert_eq!(l2.bid_prices, vec![400_000]);
    assert_eq!(l2.bid_volumes, vec![10]);

    let snapshot = book.take_snapshot(7, 8);
    let expected = snapshot.checksum;
    let mut elsewhere = UnifiedOrderBook::new(6);
    match elsewhere.restore_snapshot(snapshot) {
        Err(PredictionError::ChecksumMismatch { expected: e, got }) => {
            assert_eq!(e, expected);
            assert_ne!(got, expected);
        }
        _ => panic!("a snapshot of another market must be refused"),
    }
    assert!(elsewhere.get_l2_data(TokenType::YES, 10).bid_prices.is_empty());
}

#[test]
fn replay_errors_and_numbering() {
    let market = UnifiedOrderBook::new(1);
    let mut manager = EventReplayManager::new(market.take_snapshot(0, 0), 10);
    let cmd = OrderConverter::to_order_command(&order(TokenType::YES, 1, 1, 1, OrderAction::Bid), 1, 1);
    assert_eq!(manager.record_event(&cmd, vec![]), 10);
    assert_eq!(manager.record_event(&cmd, vec![]), 11);
    assert_eq!(manager.replay_from(3).unwrap_err(), PredictionError::InvalidReplayPosition { position: 3, len: 2 });
    assert_eq!(manager.replay_from(2).unwrap().len(), 0);
    assert_eq!(manager.current_position(), 2);
    assert_eq!(manager.replay_to_snapshot(9).unwrap_err(), PredictionError::SequenceNotFound { sequence: 9 });
    assert_eq!(manager.replay_to_snapshot(11).unwrap().len(), 1);
    assert_eq!(manager.current_position(), 1);
    manager.clear_event_log();
    assert_eq!(manager.event_count(), 0);
    assert_eq!(manager.current_position(), 0);
    assert_eq!(manager.next_sequence(), 12);
    assert_eq!(manager.record_event(&cmd, vec![]), 12);
    assert_eq!(manager.replay_to_snapshot(12).unwrap()[0].sequence, 12);
}

#[test]
fn snapshot_file_names_round_trip() {
    assert_eq!(RecoveryManager::snapshot_file_name(42), "prediction_snapshot_42.bin");
    for seq in [0u64, 7, 42, 1_000_000, u64::MAX] {
        let name = RecoveryManager::snapshot_file_name(seq);
        assert_eq!(RecoveryManager::snapshot_seq_from_file_name(&name), Some(seq));
    }
    assert_eq!(RecoveryManager::snapshot_seq_from_file_name("prediction_snapshot_+7.bin"), Some(7));
    assert_eq!(RecoveryManager::snapshot_seq_from_file_name("prediction_snapshot_007.bin"), Some(7));
    assert_eq!(RecoveryManager::snapshot_seq_from_file_name("prediction_snapshot_.bin"), None);
    assert_eq!(RecoveryManager::snapshot_seq_from_file_name("prediction_snapshot_+.bin"), None);
    assert_eq!(RecoveryManager::snapshot_seq_from_file_name("prediction_snapshot_-1.bin"), None);
    assert_eq!(RecoveryManager::snapshot_seq_from_file_name("prediction_snapshot_18446744073709551616.bin"), None);
    assert_eq!(RecoveryManager::snapshot_seq_from_file_name("prediction_snapshot_3.txt"), None);
    assert_eq!(RecoveryManager::snapshot_seq_from_file_name("snapshot_3.bin"), None);
    let names = vec![
        "prediction_snapshot_3.bin".to_string(),
        "notes.txt".to_string(),
        "prediction_snapshot_12.bin".to_string(),
        "prediction_snapshot_5.bin".to_string(),
    ];
    assert_eq!(RecoveryManager::latest_snapshot_seq(&names), Some(12));
    assert_eq!(RecoveryManager::latest_snapshot_seq(&vec!["a".to_string()]), None);
}

#[test]
fn recovery_numbers_snapshots_and_rebuilds() {
    let mut manager = RecoveryManager::new("snapshots".into(), "wal".into());
    let market = UnifiedOrderBook::new(0);
    let (snapshot, seq) = manager.prepare_snapshot_save(&market, 99, 1234);
    assert_eq!(seq, 1);
    assert_eq!(snapshot.event_sequence, 99);
    assert_eq!(snapshot.wal_offset, 0);
    assert_eq!(manager.last_snapshot_seq(), 1);
    assert_eq!(manager.last_event_seq(), 99);

    let (book, snap_seq, event_seq) = manager.full_recovery(Some((seq, snapshot))).unwrap();
    assert_eq!((book.market_id, snap_seq, event_seq), (0, 1, 99));

    let (book, snap_seq, event_seq) = manager.full_recovery(None).unwrap();
    assert_eq!((book.market_id, snap_seq, event_seq), (0, 0, 0));

    // A market is recovered under its own id, with its books.
    let mut market = UnifiedOrderBook::new(4);
    let o = PredictionOrder::new(4, TokenType::NO, 1, 10, 10 * 300_000, OrderAction::Bid, i64::MAX);
    let mut cmd = OrderConverter::to_order_command(&o, 1, 1);
    assert_eq!(market.place_order(&mut cmd), CommandResultCode::Success);
    let snapshot = market.take_snapshot(17, 0);
    let (book, event_seq) = RecoveryManager::book_from_snapshot(snapshot).unwrap();
    assert_eq!((book.market_id, event_seq), (4, 17));
    assert_eq!(book.get_l2_data(TokenType::NO, 10).bid_prices, vec![300_000]);
    assert_eq!(book.get_l2_data(TokenType::NO, 10).bid_volumes, vec![10]);
    let snapshot = market.take_snapshot(18, 0);
    let (book, snap_seq, event_seq) = manager.full_recovery(Some((3, snapshot))).unwrap();
    assert_eq!((book.market_id, snap_seq, event_seq), (4, 3, 18));

    // A snapshot whose books were altered fails the checksum test.
    let mut snapshot = market.take_snapshot(19, 0);
    snapshot.no_book_snapshot = UnifiedOrderBook::new(4).no_book;
    assert!(matches!(
        RecoveryManager::book_from_snapshot(snapshot),
        Err(PredictionError::ChecksumMismatch { .. })
    ));
}

#[test]
fn market_config_keeps_its_fields() {
    let c = MarketConfig::new(1, 2, 3, [9u8; 32]);
    assert_eq!((c.id, c.yes_token, c.no_token, c.condition_id), (1, 2, 3, [9u8; 32]));
}

#[test]
fn cancel_undoes_resting() {
    let mut book = DirectOrderBook::new(spec());
    let mut a = gtc(1, 10, OrderAction::Ask, 500, 5);
    book.new_order(&mut a);
    let mut a2 = gtc(2, 10, OrderAction::Ask, 600, 5);
    book.new_order(&mut a2);
    let mut b = gtc(3, 11, OrderAction::Bid, 550, 8);
    book.new_order(&mut b);
    let asks_after_trade: Vec<RestingOrder> = book.ask_orders().clone();
    assert_eq!(book.get_total_bid_volume(), 3);
    let mut c = gtc(3, 11, OrderAction::Bid, 0, 0);
    assert_eq!(book.cancel_order(&mut c), CommandResultCode::Success);
    assert!(book.bid_orders().is_empty());
    assert_eq!(book.ask_orders(), &asks_after_trade);
    assert_eq!(book.ask_orders().len(), 1);
    assert_eq!(book.ask_orders()[0].order_id, 2);
}

#[test]
fn consistency_flags_imbalance_and_misaligned_prices() {
    let mut book = UnifiedOrderBook::new(1);
    assert_eq!(book.verify_cross_book_consistency().unwrap(), true);
    // YES asks 10 against no NO bids: (10 - 0) / 11 > 1/2.
    place(&mut book, &order(TokenType::YES, 1, 10, 700_000, OrderAction::Ask), 1);
    assert!(book.volume_imbalanced());
    assert!(!book.best_prices_misaligned());
    assert_eq!(book.verify_cross_book_consistency().unwrap(), false);
    // NO bids 9 at 300_000: (10 - 9) / 11 is small and 700_000 + 300_000 is PRICE_SCALE.
    place(&mut book, &order(TokenType::NO, 2, 9, 300_000, OrderAction::Bid), 2);
    assert!(!book.volume_imbalanced());
    assert!(!book.best_prices_misaligned());
    assert_eq!(book.verify_cross_book_consistency().unwrap(), true);

    let mut book = UnifiedOrderBook::new(1);
    place(&mut book, &order(TokenType::YES, 1, 10, 800_000, OrderAction::Ask), 1);
    place(&mut book, &order(TokenType::NO, 2, 10, 100_000, OrderAction::Bid), 2);
    assert!(!book.volume_imbalanced());
    assert!(book.best_prices_misaligned());
    assert_eq!(book.verify_cross_book_consistency().unwrap(), false);

    // Exactly 1000 away is still aligned; 1001 is not.
    let mut book = UnifiedOrderBook::new(1);
    place(&mut book, &order(TokenType::YES, 1, 10, 801_000, OrderAction::Ask), 1);
    place(&mut book, &order(TokenType::NO, 2, 10, 200_000, OrderAction::Bid), 2);
    assert!(!book.best_prices_misaligned());
    let mut book = UnifiedOrderBook::new(1);
    place(&mut book, &order(TokenType::YES, 1, 10, 801_001, OrderAction::Ask), 1);
    place(&mut book, &order(TokenType::NO, 2, 10, 200_000, OrderAction::Bid), 2);
    assert!(book.best_prices_misaligned());

    // The imbalance boundary: 2 * (va - vb) > va + 1.
    let mut book = UnifiedOrderBook::new(1);
    place(&mut book, &order(TokenType::YES, 1, 5, 700_000, OrderAction::Ask), 1);
    place(&mut book, &order(TokenType::NO, 2, 2, 300_000, OrderAction::Bid), 2);
    assert!(!book.volume_imbalanced());
    let mut book = UnifiedOrderBook::new(1);
    place(&mut book, &order(TokenType::YES, 1, 6, 700_000, OrderAction::Ask), 1);
    place(&mut book, &order(TokenType::NO, 2, 2, 300_000, OrderAction::Bid), 2);
    assert!(book.volume_imbalanced());
}

#[test]
fn snapshot_timestamp_follows_the_clock_reading() {
    assert_eq!(matching_core::prediction::unified::unix_timestamp(Some(1_700_000_000)), 1_700_000_000);
    assert_eq!(matching_core::prediction::unified::unix_timestamp(None), 0);
    assert_eq!(matching_core::prediction::unified::unix_timestamp(Some(u64::MAX)), -1);
    let book = UnifiedOrderBook::new(1);
    let snapshot = book.snapshot_at(3, 4, Some(42));
    assert_eq!((snapshot.timestamp, snapshot.event_sequence, snapshot.wal_offset), (42, 3, 4));
    assert_eq!(book.snapshot_at(3, 4, None).timestamp, 0);
    assert_eq!(snapshot.checksum, book.take_snapshot(0, 0).checksum);
    assert!(book.take_snapshot(0, 0).timestamp > 0);
}

#[test]
fn checksum_sees_only_totals_and_level_counts() {
    let mut a = UnifiedOrderBook::new(1);
    place(&mut a, &order(TokenType::YES, 1, 10, 600_000, OrderAction::Ask), 1);
    let mut b = UnifiedOrderBook::new(1);
    place(&mut b, &order(TokenType::YES, 2, 10, 700_000, OrderAction::Ask), 2);
    assert_eq!(a.take_snapshot(0, 0).checksum, b.take_snapshot(0, 0).checksum);
    let mut c = UnifiedOrderBook::new(1);
    place(&mut c, &order(TokenType::YES, 2, 11, 700_000, OrderAction::Ask), 2);
    assert_ne!(a.take_snapshot(0, 0).checksum, c.take_snapshot(0, 0).checksum);
    let d = UnifiedOrderBook::new(2);
    assert_ne!(UnifiedOrderBook::new(1).take_snapshot(0, 0).checksum, d.take_snapshot(0, 0).checksum);
}

#[test]
fn recorded_event_is_replayed_from_the_old_end() {
    let market = UnifiedOrderBook::new(1);
    let mut manager = EventReplayManager::new(market.take_snapshot(0, 0), 5);
    let first = OrderConverter::to_order_command(&order(TokenType::YES, 1, 1, 1, OrderAction::Bid), 1, 1);
    manager.record_event(&first, vec![]);
    let n = manager.event_count();
    let cmd = OrderConverter::to_order_command(&order(TokenType::NO, 2, 3, 4, OrderAction::Ask), 2, 77);
    let seq = manager.record_event(&cmd, vec![]);
    let replayed = manager.replay_from(n).unwrap();
    assert_eq!(replayed.len(), 1);
    assert_eq!(replayed[0].sequence, seq);
    assert_eq!(replayed[0].timestamp, 77);
    assert_eq!(replayed[0].command.order_id, 2);
    assert_eq!(replayed[0].command.uid, 2);
}

#[test]
fn checksum_hashes_as_write_u64_and_write_usize_do() {
    let mut book = UnifiedOrderBook::new(1);
    place(&mut book, &order(TokenType::YES, 1, 10, 600_000, OrderAction::Ask), 1);
    place(&mut book, &order(TokenType::YES, 2, 5, 650_000, OrderAction::Ask), 2);
    place(&mut book, &order(TokenType::NO, 3, 7, 200_000, OrderAction::Bid), 3);
    let mut hasher = std::collections::hash_map::DefaultHasher::new();
    hasher.write_u64(1);
    hasher.write_u64(15);
    hasher.write_u64(0);
    hasher.write_usize(2);
    hasher.write_usize(0);
    hasher.write_u64(0);
    hasher.write_u64(7);
    hasher.write_usize(0);
    hasher.write_usize(1);
    assert_eq!(book.take_snapshot(0, 0).checksum, hasher.finish());
}

#[test]
fn replay_manager_and_recovery_manager_clone() {
    let market = UnifiedOrderBook::new(1);
    let mut manager = EventReplayManager::new(market.take_snapshot(0, 0), 3);
    let cmd = OrderConverter::to_order_command(&order(TokenType::YES, 1, 2, 3, OrderAction::Bid), 4, 5);
    manager.record_event(&cmd, vec![]);
    let event = manager.replay_from(0).unwrap()[0].clone();
    assert_eq!((event.sequence, event.timestamp, event.command.order_id), (3, 5, 4));
    let mut copy = manager.clone();
    assert_eq!(copy.event_count(), 1);
    assert_eq!(copy.next_sequence(), 4);
    assert_eq!(copy.replay_from(0).unwrap()[0].command.uid, 1);
    assert_eq!(manager.record_event(&cmd, vec![]), 4);
    assert_eq!(copy.event_count(), 1);

    let mut recovery = RecoveryManager::new("snaps".into(), "wal".into());
    recovery.prepare_snapshot_save(&market, 9, 0);
    let copy = recovery.clone();
    assert_eq!((copy.last_snapshot_seq(), copy.last_event_seq()), (1, 9));
    assert_eq!(copy.snapshot_path(), recovery.snapshot_path());
    assert_eq!(copy.wal_path(), recovery.wal_path());
}
