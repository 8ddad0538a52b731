use engine::{Fill, Order, OrderBook, PriceLevel, Side};

fn order(id: u64, side: Side, price: u64, qty: u64) -> Order {
    Order {
        id,
        side,
        price,
        qty,
        seq: id,
    }
}

fn levels(snapshot: Vec<PriceLevel>) -> Vec<(u64, u64)> {
    snapshot.iter().map(|l| (l.price, l.qty)).collect()
}

fn fills_of(fills: &[Fill]) -> Vec<(u64, u64, u64, u64)> {
    fills
        .iter()
        .map(|f| (f.maker_order_id, f.taker_order_id, f.price, f.qty))
        .collect()
}

#[test]
fn no_cross_rests_order() {
    let mut book = OrderBook::new();
    let fills = book.submit(order(1, Side::Buy, 100, 10));
    assert!(fills.is_empty());
    assert_eq!(book.bids_snapshot().len(), 1);
}

#[test]
fn full_fill() {
    let mut book = OrderBook::new();
    book.submit(order(1, Side::Sell, 100, 10));
    let fills = book.submit(order(2, Side::Buy, 100, 10));
    assert_eq!(fills.len(), 1);
    assert_eq!(fills[0].qty, 10);
    assert!(book.asks_snapshot().is_empty());
    assert!(book.bids_snapshot().is_empty());
}

#[test]
fn partial_fill_rests_remainder() {
    let mut book = OrderBook::new();
    book.submit(order(1, Side::Sell, 100, 5));
    let fills = book.submit(order(2, Side::Buy, 100, 10));
    assert_eq!(fills[0].qty, 5);
    // remainder of buy rests on bid side
    assert_eq!(book.bids_snapshot()[0].qty, 5);
}

#[test]
fn price_time_priority() {
    let mut book = OrderBook::new();
    // Two sells at same price; order 1 arrived first
    book.submit(order(1, Side::Sell, 100, 5));
    book.submit(order(2, Side::Sell, 100, 5));
    let fills = book.submit(order(3, Side::Buy, 100, 5));
    // Should fill against maker order 1 (time priority)
    assert_eq!(fills[0].maker_order_id, 1);
}

#[test]
fn sell_matches_highest_bid() {
    let mut book = OrderBook::new();
    book.submit(order(1, Side::Buy, 99, 10));
    book.submit(order(2, Side::Buy, 101, 10));
    let fills = book.submit(order(3, Side::Sell, 99, 10));
    // Should match against the 101 bid (best bid)
    assert_eq!(fills[0].maker_order_id, 2);
    assert_eq!(fills[0].price, 101);
}

#[test]
fn partial_fill_walks_a_level() {
    let mut book = OrderBook::new();
    book.submit(order(9, Side::Buy, 99, 8));
    book.submit(order(1, Side::Sell, 101, 10));
    book.submit(order(2, Side::Sell, 101, 5));
    book.submit(order(3, Side::Sell, 102, 5));
    let fills = book.submit(order(7, Side::Buy, 101, 12));
    assert_eq!(fills_of(&fills), vec![(1, 7, 101, 10), (2, 7, 101, 2)]);
    assert_eq!(levels(book.asks_snapshot()), vec![(101, 3), (102, 5)]);
    assert_eq!(levels(book.bids_snapshot()), vec![(99, 8)]);
}

#[test]
fn buy_sweeps_levels_and_rests_at_its_limit() {
    let mut book = OrderBook::new();
    book.submit(order(1, Side::Sell, 105, 4));
    book.submit(order(2, Side::Sell, 103, 3));
    book.submit(order(3, Side::Sell, 104, 2));
    let fills = book.submit(order(4, Side::Buy, 104, 9));
    assert_eq!(fills_of(&fills), vec![(2, 4, 103, 3), (3, 4, 104, 2)]);
    assert_eq!(levels(book.asks_snapshot()), vec![(105, 4)]);
    assert_eq!(levels(book.bids_snapshot()), vec![(104, 4)]);
}

#[test]
fn sell_sweeps_bids_from_the_highest() {
    let mut book = OrderBook::new();
    book.submit(order(1, Side::Buy, 10, 1));
    book.submit(order(2, Side::Buy, 12, 2));
    book.submit(order(3, Side::Buy, 11, 3));
    let fills = book.submit(order(4, Side::Sell, 11, 4));
    assert_eq!(fills_of(&fills), vec![(2, 4, 12, 2), (3, 4, 11, 2)]);
    assert_eq!(levels(book.bids_snapshot()), vec![(11, 1), (10, 1)]);
    assert!(book.asks_snapshot().is_empty());
}

#[test]
fn empty_order_changes_nothing() {
    let mut book = OrderBook::new();
    book.submit(order(1, Side::Sell, 100, 5));
    let fills = book.submit(order(2, Side::Buy, 100, 0));
    assert!(fills.is_empty());
    assert_eq!(levels(book.asks_snapshot()), vec![(100, 5)]);
    assert!(book.bids_snapshot().is_empty());
}

#[test]
fn remainder_joins_the_back_of_its_level() {
    let mut book = OrderBook::new();
    book.submit(order(1, Side::Buy, 100, 5));
    book.submit(order(2, Side::Buy, 100, 6));
    book.submit(order(3, Side::Buy, 101, 7));
    assert_eq!(levels(book.bids_snapshot()), vec![(101, 7), (100, 11)]);
    let fills = book.submit(order(4, Side::Sell, 100, 18));
    assert_eq!(
        fills_of(&fills),
        vec![(3, 4, 101, 7), (1, 4, 100, 5), (2, 4, 100, 6)]
    );
    assert!(book.bids_snapshot().is_empty());
    assert!(book.asks_snapshot().is_empty());
}

#[test]
fn partially_filled_maker_keeps_its_place() {
    let mut book = OrderBook::new();
    book.submit(order(1, Side::Sell, 50, 10));
    book.submit(order(2, Side::Sell, 50, 10));
    book.submit(order(3, Side::Buy, 50, 4));
    let fills = book.submit(order(4, Side::Buy, 60, 8));
    assert_eq!(fills_of(&fills), vec![(1, 4, 50, 6), (2, 4, 50, 2)]);
}

#[test]
fn totals_beyond_u64_are_reported() {
    let mut book = OrderBook::default();
    book.submit(order(1, Side::Buy, 100, u64::MAX));
    assert_eq!(levels(book.bids_snapshot()), vec![(100, u64::MAX)]);
    book.submit(order(2, Side::Buy, 100, 1));
    assert!(book.checked_bids_snapshot().is_none());
    assert_eq!(book.checked_asks_snapshot().unwrap().len(), 0);
    book.submit(order(3, Side::Sell, 200, u64::MAX));
    book.submit(order(4, Side::Sell, 200, u64::MAX));
    assert!(book.checked_asks_snapshot().is_none());
}

#[test]
fn quantity_is_conserved() {
    let mut book = OrderBook::new();
    book.submit(order(1, Side::Sell, 100, 5));
    book.submit(order(2, Side::Sell, 101, 6));
    book.submit(order(3, Side::Buy, 90, 7));
    let fills = book.submit(order(4, Side::Buy, 100, 8));
    let filled: u64 = fills.iter().map(|f| f.qty).sum();
    assert_eq!(filled, 5);
    let asks: u64 = book.asks_snapshot().iter().map(|l| l.qty).sum();
    let bids: u64 = book.bids_snapshot().iter().map(|l| l.qty).sum();
    assert_eq!(asks, 11 - filled);
    assert_eq!(bids, 7 + 8 - filled);
}

#[test]
fn book_is_never_crossed() {
    let mut book = OrderBook::new();
    for id in 0..40u64 {
        let side = if id % 3 == 0 { Side::Buy } else { Side::Sell };
        book.submit(order(id, side, 95 + (id * 7) % 11, 1 + id % 5));
        let bids = book.bids_snapshot();
        let asks = book.asks_snapshot();
        if !bids.is_empty() && !asks.is_empty() {
            assert!(bids[0].price < asks[0].price);
        }
    }
}

#[test]
fn order_beyond_every_price_rests_whole() {
    let mut book = OrderBook::new();
    book.submit(order(1, Side::Sell, 101, 5));
    let fills = book.submit(order(2, Side::Buy, 100, 5));
    assert!(fills.is_empty());
    assert_eq!(levels(book.bids_snapshot()), vec![(100, 5)]);
    assert_eq!(levels(book.asks_snapshot()), vec![(101, 5)]);
    let fills = book.submit(order(3, Side::Sell, 101, 2));
    assert!(fills.is_empty());
    assert_eq!(levels(book.asks_snapshot()), vec![(101, 7)]);
}

#[test]
fn price_totals_move_by_what_is_filled_there() {
    let mut book = OrderBook::new();
    book.submit(order(1, Side::Sell, 100, 5));
    book.submit(order(2, Side::Sell, 101, 6));
    book.submit(order(3, Side::Buy, 99, 4));
    let fills = book.submit(order(4, Side::Buy, 101, 8));
    assert_eq!(fills_of(&fills), vec![(1, 4, 100, 5), (2, 4, 101, 3)]);
    assert_eq!(levels(book.asks_snapshot()), vec![(101, 3)]);
    assert_eq!(levels(book.bids_snapshot()), vec![(99, 4)]);
}

#[test]
fn history_conserves_quantity() {
    let mut book = OrderBook::new();
    let mut bid: u64 = 0;
    let mut offered: u64 = 0;
    let mut traded: u64 = 0;
    for id in 0..60u64 {
        let qty = 1 + (id * 5) % 7;
        let side = if id % 2 == 0 { Side::Buy } else { Side::Sell };
        match side {
            Side::Buy => bid += qty,
            Side::Sell => offered += qty,
        }
        let fills = book.submit(order(id, side, 90 + (id * 11) % 17, qty));
        traded += fills.iter().map(|f| f.qty).sum::<u64>();
    }
    let bids: u64 = book.bids_snapshot().iter().map(|l| l.qty).sum();
    let asks: u64 = book.asks_snapshot().iter().map(|l| l.qty).sum();
    assert!(traded > 0);
    assert_eq!(bid, traded + bids);
    assert_eq!(offered, traded + asks);
}

#[test]
fn split_order_trades_the_same() {
    let mut whole = OrderBook::new();
    let mut parts = OrderBook::new();
    for book in [&mut whole, &mut parts] {
        book.submit(order(1, Side::Sell, 100, 5));
        book.submit(order(2, Side::Sell, 101, 6));
        book.submit(order(3, Side::Sell, 103, 7));
    }
    let fills = whole.submit(order(4, Side::Buy, 102, 9));
    let first = parts.submit(order(4, Side::Buy, 102, 3));
    let second = parts.submit(order(5, Side::Buy, 102, 6));
    let total: u64 = fills.iter().map(|f| f.qty).sum();
    let split: u64 = first.iter().chain(second.iter()).map(|f| f.qty).sum();
    assert_eq!(total, 9);
    assert_eq!(split, 9);
    assert_eq!(levels(whole.asks_snapshot()), vec![(101, 2), (103, 7)]);
    assert_eq!(levels(parts.asks_snapshot()), vec![(101, 2), (103, 7)]);
}

#[test]
fn sides_are_mirror_images() {
    let mut book = OrderBook::new();
    let mut mirrored = OrderBook::new();
    for id in 0..40u64 {
        let (side, other) = if id % 2 == 0 {
            (Side::Buy, Side::Sell)
        } else {
            (Side::Sell, Side::Buy)
        };
        let price = 90 + (id * 7) % 13;
        let fills = book.submit(order(id, side, price, 1 + id % 6));
        let mirror = mirrored.submit(order(id, other, u64::MAX - price, 1 + id % 6));
        let expected: Vec<(u64, u64, u64, u64)> = fills_of(&fills)
            .into_iter()
            .map(|(m, t, p, q)| (m, t, u64::MAX - p, q))
            .collect();
        assert_eq!(fills_of(&mirror), expected);
        let bids: Vec<(u64, u64)> = levels(book.bids_snapshot())
            .into_iter()
            .map(|(p, q)| (u64::MAX - p, q))
            .collect();
        assert_eq!(levels(mirrored.asks_snapshot()), bids);
    }
}

#[test]
fn shown_levels_are_positive() {
    let mut book = OrderBook::new();
    book.submit(order(1, Side::Sell, 100, 5));
    book.submit(order(2, Side::Buy, 100, 5));
    book.submit(order(3, Side::Buy, 98, 0));
    book.submit(order(4, Side::Buy, 97, 1));
    assert!(book.asks_snapshot().iter().all(|l| l.qty > 0));
    assert_eq!(levels(book.bids_snapshot()), vec![(97, 1)]);
}
