use matching_core::book::{BookError, OrderBook};
use matching_core::order::{Order, OrderStatus, Side};

fn limit_order(id: u64, side: Side, price: u32, volume: u32) -> Order {
    Order {
        id,
        side,
        price,
        total_volume: volume,
        concealed_volume: 0,
        volume_filled: 0,
        volume_remaining: volume,
        status: OrderStatus::New,
        sequence: 0,
    }
}

#[test]
fn new_book_is_empty() {
    let book = OrderBook::new();
    assert!(book.peek_top(Side::Buy).is_none());
    assert!(book.peek_top(Side::Sell).is_none());
    assert_eq!(book.next_sequence, 1);
}

#[test]
fn insert_assigns_sequence_numbers_in_arrival_order() {
    let mut book = OrderBook::new();
    assert_eq!(book.insert(limit_order(1, Side::Buy, 5, 10)), Ok(()));
    assert_eq!(book.insert(limit_order(2, Side::Sell, 9, 10)), Ok(()));
    assert_eq!(book.insert(limit_order(3, Side::Buy, 7, 10)), Ok(()));
    assert_eq!(book.next_sequence, 4);
    assert_eq!(book.bids[0].sequence, 3);
    assert_eq!(book.bids[1].sequence, 1);
    assert_eq!(book.asks[0].sequence, 2);
}

#[test]
fn bids_rest_in_price_then_time_priority() {
    let mut book = OrderBook::new();
    assert_eq!(book.insert(limit_order(1, Side::Buy, 5, 10)), Ok(()));
    assert_eq!(book.insert(limit_order(2, Side::Buy, 7, 10)), Ok(()));
    assert_eq!(book.insert(limit_order(3, Side::Buy, 6, 10)), Ok(()));
    assert_eq!(book.insert(limit_order(4, Side::Buy, 7, 10)), Ok(()));
    let ids: Vec<u64> = book.bids.iter().map(|o| o.id).collect();
    assert_eq!(ids, vec![2, 4, 3, 1]);
    let top = book.peek_top(Side::Buy).unwrap();
    assert_eq!(top.id, 2);
}

#[test]
fn asks_rest_in_price_then_time_priority() {
    let mut book = OrderBook::new();
    assert_eq!(book.insert(limit_order(1, Side::Sell, 12, 10)), Ok(()));
    assert_eq!(book.insert(limit_order(2, Side::Sell, 10, 10)), Ok(()));
    assert_eq!(book.insert(limit_order(3, Side::Sell, 10, 10)), Ok(()));
    let ids: Vec<u64> = book.asks.iter().map(|o| o.id).collect();
    assert_eq!(ids, vec![2, 3, 1]);
    let top = book.peek_top(Side::Sell).unwrap();
    assert_eq!(top.id, 2);
}

#[test]
fn insert_duplicate_id_fails_across_both_sides() {
    let mut book = OrderBook::new();
    assert_eq!(book.insert(limit_order(7, Side::Buy, 5, 10)), Ok(()));
    assert_eq!(
        book.insert(limit_order(7, Side::Buy, 6, 10)),
        Err(BookError::DuplicateId)
    );
    assert_eq!(
        book.insert(limit_order(7, Side::Sell, 6, 10)),
        Err(BookError::DuplicateId)
    );
    assert_eq!(book.bids.len(), 1);
    assert!(book.asks.is_empty());
}

#[test]
fn insert_fully_filled_order_fails() {
    let mut book = OrderBook::new();
    let filled = Order {
        id: 1,
        side: Side::Sell,
        price: 10,
        total_volume: 100,
        concealed_volume: 0,
        volume_filled: 100,
        volume_remaining: 0,
        status: OrderStatus::Filled,
        sequence: 0,
    };
    assert_eq!(book.insert(filled), Err(BookError::InvalidState));
    assert!(book.asks.is_empty());
}

#[test]
fn remove_returns_the_resting_order() {
    let mut book = OrderBook::new();
    assert_eq!(book.insert(limit_order(1, Side::Sell, 10, 100)), Ok(()));
    assert_eq!(book.insert(limit_order(2, Side::Sell, 11, 50)), Ok(()));
    let removed = book.remove(1).unwrap();
    assert_eq!(removed.id, 1);
    assert_eq!(removed.price, 10);
    assert_eq!(removed.volume_remaining, 100);
    assert_eq!(book.asks.len(), 1);
    assert_eq!(book.asks[0].id, 2);
}

#[test]
fn remove_absent_id_is_not_found() {
    let mut book = OrderBook::new();
    assert_eq!(book.insert(limit_order(1, Side::Buy, 10, 100)), Ok(()));
    assert_eq!(book.remove(99), Err(BookError::NotFound));
    assert_eq!(book.bids.len(), 1);
}

#[test]
fn contains_order_id_sees_both_sides() {
    let mut book = OrderBook::new();
    assert_eq!(book.insert(limit_order(1, Side::Buy, 10, 100)), Ok(()));
    assert_eq!(book.insert(limit_order(2, Side::Sell, 12, 100)), Ok(()));
    assert!(book.contains_order_id(1));
    assert!(book.contains_order_id(2));
    assert!(!book.contains_order_id(3));
}

#[test]
fn best_opposite_is_the_eligible_prefix_in_priority_order() {
    let mut book = OrderBook::new();
    assert_eq!(book.insert(limit_order(1, Side::Sell, 10, 10)), Ok(()));
    assert_eq!(book.insert(limit_order(2, Side::Sell, 11, 10)), Ok(()));
    assert_eq!(book.insert(limit_order(3, Side::Sell, 12, 10)), Ok(()));
    let eligible = book.best_opposite(Side::Buy, 11);
    let ids: Vec<u64> = eligible.iter().map(|o| o.id).collect();
    assert_eq!(ids, vec![1, 2]);
    assert!(book.best_opposite(Side::Buy, 9).is_empty());
}

#[test]
fn best_opposite_for_a_sell_scans_the_bids() {
    let mut book = OrderBook::new();
    assert_eq!(book.insert(limit_order(1, Side::Buy, 10, 10)), Ok(()));
    assert_eq!(book.insert(limit_order(2, Side::Buy, 8, 10)), Ok(()));
    let eligible = book.best_opposite(Side::Sell, 9);
    let ids: Vec<u64> = eligible.iter().map(|o| o.id).collect();
    assert_eq!(ids, vec![1]);
}
