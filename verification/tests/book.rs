use orderbook::Orderbook;
use orderbook::PriceLevel;

fn level(price: u64, quantity: u64) -> PriceLevel {
    PriceLevel { price, quantity }
}

/// The worked example book: two decimals on both fields, two bid levels and
/// two ask levels.
fn example_book() -> Orderbook {
    let mut book = Orderbook::new(Some(2), Some(2)).unwrap();
    book.process(
        vec![(10000, 1000), (9950, 500)],
        vec![(10050, 800), (10100, 200)],
        true,
    );
    book
}

#[test]
fn scale_factor_is_ten_to_the_decimals() {
    let expected: [u64; 9] = [
        1,
        10,
        100,
        1000,
        10000,
        100000,
        1000000,
        10000000,
        100000000,
    ];
    let mut d: u8 = 0;
    while d <= 8 {
        let book = Orderbook::new(Some(d), Some(d)).unwrap();
        assert_eq!(book.price_factor, expected[d as usize]);
        assert_eq!(book.quantity_factor, expected[d as usize]);
        d += 1;
    }
}

#[test]
fn default_precision_is_six_decimals() {
    let book = Orderbook::new(None, None).unwrap();
    assert_eq!(book.price_factor, 1000000);
    assert_eq!(book.quantity_factor, 1000000);
}

#[test]
fn construction_fails_above_the_cap() {
    assert!(Orderbook::new(Some(9), Some(0)).is_err());
    assert!(Orderbook::new(Some(0), Some(9)).is_err());
    assert!(Orderbook::new(Some(255), None).is_err());
    assert!(Orderbook::new(None, Some(200)).is_err());
}

#[test]
fn snapshot_holds_exactly_the_positive_levels() {
    let mut book = Orderbook::new(Some(2), Some(2)).unwrap();
    book.process(
        vec![(10000, 1000), (9950, 500), (9900, 0)],
        vec![(10050, 800), (10100, 200), (10200, 0)],
        true,
    );
    assert_eq!(*book.get_bids(), vec![level(10000, 1000), level(9950, 500)]);
    assert_eq!(*book.get_asks(), vec![level(10050, 800), level(10100, 200)]);
}

#[test]
fn snapshot_replaces_prior_state() {
    let mut book = example_book();
    book.process(vec![(9800, 300)], vec![(9900, 400)], true);
    assert_eq!(*book.get_bids(), vec![level(9800, 300)]);
    assert_eq!(*book.get_asks(), vec![level(9900, 400)]);
}

#[test]
fn later_updates_overwrite_within_one_snapshot() {
    let mut book = Orderbook::new(Some(2), Some(2)).unwrap();
    book.process(
        vec![(10000, 1000), (10000, 700)],
        vec![(10050, 800), (10050, 0)],
        true,
    );
    assert_eq!(*book.get_bids(), vec![level(10000, 700)]);
    assert!(book.get_asks().is_empty());
}

#[test]
fn delta_update_merges_with_existing_levels() {
    let mut book = example_book();
    book.process(vec![(9975, 250)], vec![(10050, 0)], false);
    assert_eq!(
        *book.get_bids(),
        vec![level(10000, 1000), level(9975, 250), level(9950, 500)]
    );
    assert_eq!(*book.get_asks(), vec![level(10100, 200)]);
}

#[test]
fn sides_enumerate_strictly_ordered_after_any_updates() {
    let mut book = Orderbook::new(Some(2), Some(2)).unwrap();
    book.add(1, 9950, 500);
    book.add(1, 10000, 1000);
    book.add(1, 9975, 200);
    book.add(0, 10100, 200);
    book.add(0, 10050, 800);
    book.add(0, 10075, 100);
    book.add(1, 9975, 300);
    book.add(0, 10075, 0);
    let bids = book.get_bids();
    let mut i = 1;
    while i < bids.len() {
        assert!(bids[i - 1].price > bids[i].price);
        i += 1;
    }
    let asks = book.get_asks();
    let mut k = 1;
    while k < asks.len() {
        assert!(asks[k - 1].price < asks[k].price);
        k += 1;
    }
    assert_eq!(bids.len(), 3);
    assert_eq!(asks.len(), 2);
}

#[test]
fn add_with_zero_quantity_removes_the_level() {
    let mut book = example_book();
    book.add(1, 10000, 0);
    assert_eq!(*book.get_bids(), vec![level(9950, 500)]);
    book.add(0, 12345, 0);
    assert_eq!(*book.get_asks(), vec![level(10050, 800), level(10100, 200)]);
}

#[test]
fn add_replaces_the_quantity_at_an_existing_price() {
    let mut book = example_book();
    book.add(1, 10000, 333);
    assert_eq!(*book.get_bids(), vec![level(10000, 333), level(9950, 500)]);
    book.add(0, 10100, 444);
    assert_eq!(*book.get_asks(), vec![level(10050, 800), level(10100, 444)]);
}

#[test]
fn best_levels_of_the_example() {
    let book = example_book();
    assert_eq!(book.get_best_bid(), Some((10000, 1000)));
    assert_eq!(book.get_best_ask(), Some((10050, 800)));
}

#[test]
fn best_levels_dominate_their_side() {
    let book = example_book();
    let (best_bid, _) = book.get_best_bid().unwrap();
    for lvl in book.get_bids().iter() {
        assert!(best_bid >= lvl.price);
    }
    let (best_ask, _) = book.get_best_ask().unwrap();
    for lvl in book.get_asks().iter() {
        assert!(best_ask <= lvl.price);
    }
}

#[test]
fn empty_book_answers_empty() {
    let book = Orderbook::new(Some(2), Some(2)).unwrap();
    assert_eq!(book.get_best_bid(), None);
    assert_eq!(book.get_best_ask(), None);
    assert_eq!(book.get_weighted_bid(), None);
    assert_eq!(book.get_weighted_ask(), None);
    assert_eq!(book.get_weighted_mid_price(), None);
    assert_eq!(book.get_total_bid_quantity(), 0);
    assert_eq!(book.get_total_ask_quantity(), 0);
    assert_eq!(book.simulate_taker_buy(100), None);
    assert_eq!(book.simulate_taker_sell(100), None);
}

#[test]
fn weighted_mid_needs_both_sides() {
    let mut book = Orderbook::new(Some(2), Some(2)).unwrap();
    book.add(1, 10000, 1000);
    assert_eq!(book.get_weighted_mid_price(), None);
    book.add(1, 10000, 0);
    book.add(0, 10050, 800);
    assert_eq!(book.get_weighted_mid_price(), None);
}

#[test]
fn weighted_mid_price_of_the_example() {
    let book = example_book();
    // (100.00 * 10 + 100.50 * 8) / 18 in quantized units.
    assert_eq!(
        book.get_weighted_mid_price(),
        Some((10000 * 1000 + 10050 * 800, 1800))
    );
}

#[test]
fn weighted_ask_of_the_example() {
    let book = example_book();
    // (100.50 * 8 + 101.00 * 2) / 10 = 100.60: the integer ratio divides to
    // the quantized price 10060.
    let (numerator, denominator) = book.get_weighted_ask().unwrap();
    assert_eq!((numerator, denominator), (10060000, 1000));
    assert_eq!(numerator / denominator, 10060);
}

#[test]
fn weighted_bid_of_the_example() {
    let book = example_book();
    let (numerator, denominator) = book.get_weighted_bid().unwrap();
    assert_eq!((numerator, denominator), (10000 * 1000 + 9950 * 500, 1500));
}

#[test]
fn weighted_prices_lie_within_the_price_range() {
    let book = example_book();
    let (bid_num, bid_den) = book.get_weighted_bid().unwrap();
    assert!(9950 * bid_den <= bid_num && bid_num <= 10000 * bid_den);
    let (ask_num, ask_den) = book.get_weighted_ask().unwrap();
    assert!(10050 * ask_den <= ask_num && ask_num <= 10100 * ask_den);
}

#[test]
fn total_quantities_sum_each_side() {
    let book = example_book();
    assert_eq!(book.get_total_bid_quantity(), 1500);
    assert_eq!(book.get_total_ask_quantity(), 1000);
}

#[test]
fn snapshot_twice_equals_snapshot_once() {
    let bids = vec![(10000, 1000), (9950, 500), (9900, 0)];
    let asks = vec![(10050, 800), (10100, 200)];
    let mut once = Orderbook::new(Some(2), Some(2)).unwrap();
    once.process(bids.clone(), asks.clone(), true);
    let mut twice = Orderbook::new(Some(2), Some(2)).unwrap();
    twice.process(bids.clone(), asks.clone(), true);
    twice.process(bids, asks, true);
    assert_eq!(*once.get_bids(), *twice.get_bids());
    assert_eq!(*once.get_asks(), *twice.get_asks());
    assert_eq!(once.price_factor, twice.price_factor);
    assert_eq!(once.quantity_factor, twice.quantity_factor);
}

#[test]
fn buy_within_the_first_level() {
    let book = example_book();
    // 8.00 at 100.50 exactly exhausts the best ask level.
    assert_eq!(book.simulate_taker_buy(800), Some((10050 * 800, 10050)));
}

#[test]
fn buy_walking_into_the_second_level() {
    let book = example_book();
    // 9.00: 8.00 at 100.50 and 1.00 at 101.00.
    assert_eq!(
        book.simulate_taker_buy(900),
        Some((10050 * 800 + 10100 * 100, 10100))
    );
}

#[test]
fn order_beyond_total_depth_returns_empty() {
    let book = example_book();
    assert_eq!(book.simulate_taker_buy(1100), None);
    assert_eq!(book.simulate_taker_sell(1501), None);
}

#[test]
fn order_for_exactly_total_depth_pays_the_whole_notional() {
    let book = example_book();
    let (notional, worst) = book.simulate_taker_buy(1000).unwrap();
    assert_eq!(notional, 10050 * 800 + 10100 * 200);
    assert_eq!(worst, 10100);
    // avgPrice = notional / requested quantity: 100.60 quantized.
    assert_eq!(notional / 1000, 10060);
    let (sell_notional, sell_worst) = book.simulate_taker_sell(1500).unwrap();
    assert_eq!(sell_notional, 10000 * 1000 + 9950 * 500);
    assert_eq!(sell_worst, 9950);
}

#[test]
fn sell_walks_bids_from_the_highest_price() {
    let book = example_book();
    assert_eq!(book.simulate_taker_sell(1000), Some((10000 * 1000, 10000)));
    assert_eq!(
        book.simulate_taker_sell(1200),
        Some((10000 * 1000 + 9950 * 200, 9950))
    );
}

#[test]
fn market_order_dispatches_by_side() {
    let book = example_book();
    assert_eq!(book.simulate_market_order(1, 900), book.simulate_taker_buy(900));
    assert_eq!(book.simulate_market_order(0, 900), book.simulate_taker_sell(900));
    assert_eq!(book.simulate_market_order(2, 900), book.simulate_taker_sell(900));
}
