use matching_core::book::OrderBook;
use matching_core::engine::{matching, Trade};
use matching_core::order::{Order, OrderStatus, Side};

fn limit_order(id: u64, side: Side, price: u32, volume: u32) -> Order {
    Order {
        id,
        side,
        price,
        total_volume: volume,
        concealed_volume: 0,
        volume_filled: 0,
        volume_remaining: volume,
        status: OrderStatus::New,
        sequence: 0,
    }
}

fn rest(book: &mut OrderBook, order: Order) {
    assert_eq!(book.insert(order), Ok(()));
}

#[test]
fn fill_moves_the_minimum_of_both_remainders() {
    let mut resting = limit_order(1, Side::Sell, 33, 1000);
    let mut incoming = limit_order(2, Side::Buy, 33, 400);
    let qty = resting.fill(&mut incoming);
    assert_eq!(qty, 400);
    assert_eq!(resting.volume_filled, 400);
    assert_eq!(resting.volume_remaining, 600);
    assert_eq!(resting.status, OrderStatus::PartiallyFilled);
    assert_eq!(incoming.volume_filled, 400);
    assert_eq!(incoming.volume_remaining, 0);
    assert_eq!(incoming.status, OrderStatus::Filled);
    assert_eq!(
        resting.volume_filled + resting.volume_remaining,
        resting.total_volume
    );
    assert_eq!(
        incoming.volume_filled + incoming.volume_remaining,
        incoming.total_volume
    );
}

#[test]
fn non_match_rests_the_incoming_order_unchanged() {
    let mut book = OrderBook::new();
    rest(&mut book, limit_order(1, Side::Sell, 10, 100));
    let (trades, status) = matching(limit_order(2, Side::Buy, 5, 50), &mut book);
    assert!(trades.is_empty());
    assert_eq!(status, OrderStatus::Rested);
    let rested = book.peek_top(Side::Buy).unwrap();
    assert_eq!(rested.id, 2);
    assert_eq!(rested.volume_filled, 0);
    assert_eq!(rested.volume_remaining, 50);
    assert_eq!(rested.status, OrderStatus::Rested);
    let untouched = book.peek_top(Side::Sell).unwrap();
    assert_eq!(untouched.id, 1);
    assert_eq!(untouched.volume_remaining, 100);
}

#[test]
fn full_fill_removes_the_resting_order() {
    let mut book = OrderBook::new();
    rest(&mut book, limit_order(1, Side::Sell, 10, 100));
    let (trades, status) = matching(limit_order(2, Side::Buy, 10, 100), &mut book);
    assert_eq!(trades.len(), 1);
    assert_eq!(
        trades[0],
        Trade { buy_order_id: 2, sell_order_id: 1, price: 10, volume: 100 }
    );
    assert_eq!(status, OrderStatus::Filled);
    assert!(book.peek_top(Side::Sell).is_none());
    assert!(book.peek_top(Side::Buy).is_none());
}

#[test]
fn partial_fill_leaves_the_resting_remainder_on_the_book() {
    let mut book = OrderBook::new();
    rest(&mut book, limit_order(1, Side::Sell, 33, 1000));
    let (trades, status) = matching(limit_order(2, Side::Buy, 33, 400), &mut book);
    assert_eq!(trades.len(), 1);
    assert_eq!(
        trades[0],
        Trade { buy_order_id: 2, sell_order_id: 1, price: 33, volume: 400 }
    );
    assert_eq!(status, OrderStatus::Filled);
    let remainder = book.peek_top(Side::Sell).unwrap();
    assert_eq!(remainder.id, 1);
    assert_eq!(remainder.volume_remaining, 600);
    assert_eq!(remainder.status, OrderStatus::PartiallyFilled);
    assert!(book.peek_top(Side::Buy).is_none());
}

#[test]
fn price_time_priority_matches_equal_prices_in_sequence_order() {
    let mut book = OrderBook::new();
    rest(&mut book, limit_order(1, Side::Sell, 10, 50));
    rest(&mut book, limit_order(2, Side::Sell, 10, 50));
    rest(&mut book, limit_order(3, Side::Sell, 12, 50));
    assert_eq!(book.asks[0].sequence, 1);
    assert_eq!(book.asks[1].sequence, 2);
    assert_eq!(book.asks[2].sequence, 3);
    let (trades, status) = matching(limit_order(4, Side::Buy, 12, 100), &mut book);
    assert_eq!(trades.len(), 2);
    assert_eq!(trades[0].sell_order_id, 1);
    assert_eq!(trades[0].price, 10);
    assert_eq!(trades[1].sell_order_id, 2);
    assert_eq!(trades[1].price, 10);
    assert_eq!(status, OrderStatus::Filled);
    let untouched = book.peek_top(Side::Sell).unwrap();
    assert_eq!(untouched.id, 3);
    assert_eq!(untouched.volume_remaining, 50);
}

#[test]
fn multi_level_sweep_prices_each_fill_at_the_resting_limit() {
    let mut book = OrderBook::new();
    rest(&mut book, limit_order(1, Side::Sell, 10, 50));
    rest(&mut book, limit_order(2, Side::Sell, 11, 50));
    let (trades, status) = matching(limit_order(3, Side::Buy, 11, 80), &mut book);
    assert_eq!(trades.len(), 2);
    assert_eq!(
        trades[0],
        Trade { buy_order_id: 3, sell_order_id: 1, price: 10, volume: 50 }
    );
    assert_eq!(
        trades[1],
        Trade { buy_order_id: 3, sell_order_id: 2, price: 11, volume: 30 }
    );
    assert_eq!(status, OrderStatus::Filled);
    assert_eq!(book.asks.len(), 1);
    assert_eq!(book.asks[0].id, 2);
    assert_eq!(book.asks[0].volume_remaining, 20);
    let total_traded: u32 = trades.iter().map(|t| t.volume).sum();
    assert_eq!(total_traded, 80);
}

#[test]
fn incoming_sell_sweeps_the_bids() {
    let mut book = OrderBook::new();
    rest(&mut book, limit_order(1, Side::Buy, 10, 50));
    rest(&mut book, limit_order(2, Side::Buy, 9, 50));
    let (trades, status) = matching(limit_order(3, Side::Sell, 9, 60), &mut book);
    assert_eq!(trades.len(), 2);
    assert_eq!(
        trades[0],
        Trade { buy_order_id: 1, sell_order_id: 3, price: 10, volume: 50 }
    );
    assert_eq!(
        trades[1],
        Trade { buy_order_id: 2, sell_order_id: 3, price: 9, volume: 10 }
    );
    assert_eq!(status, OrderStatus::Filled);
    assert_eq!(book.bids.len(), 1);
    assert_eq!(book.bids[0].id, 2);
    assert_eq!(book.bids[0].volume_remaining, 40);
}

#[test]
fn partially_filled_incoming_order_rests_with_its_fill() {
    let mut book = OrderBook::new();
    rest(&mut book, limit_order(1, Side::Sell, 10, 50));
    let (trades, status) = matching(limit_order(2, Side::Buy, 10, 80), &mut book);
    assert_eq!(trades.len(), 1);
    assert_eq!(trades[0].volume, 50);
    assert_eq!(status, OrderStatus::PartiallyFilled);
    assert!(book.peek_top(Side::Sell).is_none());
    let rested = book.peek_top(Side::Buy).unwrap();
    assert_eq!(rested.id, 2);
    assert_eq!(rested.volume_filled, 50);
    assert_eq!(rested.volume_remaining, 30);
    assert_eq!(rested.status, OrderStatus::PartiallyFilled);
    assert_eq!(
        rested.volume_filled + rested.volume_remaining,
        rested.total_volume
    );
}

#[test]
fn trade_volumes_add_up_to_the_incoming_fill() {
    let mut book = OrderBook::new();
    rest(&mut book, limit_order(1, Side::Sell, 10, 30));
    rest(&mut book, limit_order(2, Side::Sell, 11, 30));
    rest(&mut book, limit_order(3, Side::Sell, 12, 30));
    let (trades, status) = matching(limit_order(4, Side::Buy, 11, 100), &mut book);
    let total_traded: u32 = trades.iter().map(|t| t.volume).sum();
    assert_eq!(total_traded, 60);
    assert_eq!(status, OrderStatus::PartiallyFilled);
    let rested = book.peek_top(Side::Buy).unwrap();
    assert_eq!(rested.volume_filled, 60);
    assert_eq!(rested.volume_remaining, 40);
}

#[test]
fn largest_volume_full_fill_has_no_overflow() {
    let mut book = OrderBook::new();
    rest(&mut book, limit_order(1, Side::Sell, 1, u32::MAX));
    let (trades, status) = matching(limit_order(2, Side::Buy, 1, u32::MAX), &mut book);
    assert_eq!(trades.len(), 1);
    assert_eq!(trades[0].volume, u32::MAX);
    assert_eq!(status, OrderStatus::Filled);
    assert!(book.peek_top(Side::Sell).is_none());
}

#[test]
fn concealed_volume_is_tracked_but_never_affects_matching() {
    let mut book = OrderBook::new();
    let mut iceberg = limit_order(1, Side::Sell, 10, 100);
    iceberg.concealed_volume = 70;
    rest(&mut book, iceberg);
    let (trades, status) = matching(limit_order(2, Side::Buy, 10, 40), &mut book);
    assert_eq!(trades.len(), 1);
    assert_eq!(trades[0].volume, 40);
    assert_eq!(status, OrderStatus::Filled);
    let remainder = book.peek_top(Side::Sell).unwrap();
    assert_eq!(remainder.concealed_volume, 70);
    assert_eq!(remainder.volume_remaining, 60);
}

#[test]
fn resting_order_filled_across_two_passes_reaches_filled() {
    let mut book = OrderBook::new();
    rest(&mut book, limit_order(1, Side::Sell, 10, 100));
    let (first, _) = matching(limit_order(2, Side::Buy, 10, 60), &mut book);
    assert_eq!(first.len(), 1);
    assert_eq!(book.peek_top(Side::Sell).unwrap().volume_remaining, 40);
    let (second, status) = matching(limit_order(3, Side::Buy, 10, 40), &mut book);
    assert_eq!(second.len(), 1);
    assert_eq!(
        second[0],
        Trade { buy_order_id: 3, sell_order_id: 1, price: 10, volume: 40 }
    );
    assert_eq!(status, OrderStatus::Filled);
    assert!(book.peek_top(Side::Sell).is_none());
}
