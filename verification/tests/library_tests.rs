use rust_matching_engine::{
    benchmark_price, EngineStats, MatchingEngine, Order, OrderBook, Price, Side,
};
use std::str::FromStr;

fn price(value: &str) -> Price {
    Price::parse(value).unwrap()
}

fn parse_error(value: &str) -> String {
    Price::parse(value).unwrap_err()
}

#[test]
fn incoming_quantity_is_traded_or_left_open() {
    let mut engine = MatchingEngine::new();
    engine.submit_limit_order(Side::Sell, 3, price("100.00")).unwrap();
    engine.submit_limit_order(Side::Sell, 4, price("100.50")).unwrap();
    let buy = engine.submit_limit_order(Side::Buy, 10, price("100.50")).unwrap();
    let traded: u64 = buy.trades.iter().map(|t| t.quantity).sum();
    assert_eq!(traded + buy.remaining, 10);
    assert_eq!(traded, 7);
    assert_eq!(buy.remaining, 3);
}

#[test]
fn resting_volume_drops_by_what_trades() {
    let mut engine = MatchingEngine::new();
    engine.submit_limit_order(Side::Buy, 6, price("99.00")).unwrap();
    engine.submit_limit_order(Side::Buy, 5, price("98.00")).unwrap();
    let before = engine.book().total_volume(Side::Buy);
    let sell = engine.submit_market_order(Side::Sell, 8).unwrap();
    let traded: u64 = sell.trades.iter().map(|t| t.quantity).sum();
    assert_eq!(engine.book().total_volume(Side::Buy) + traded, before);
    assert_eq!(engine.book().total_volume(Side::Buy), 3);
}

#[test]
fn trades_respect_the_limit_and_best_price_comes_first() {
    let mut engine = MatchingEngine::new();
    engine.submit_limit_order(Side::Sell, 2, price("101.00")).unwrap();
    engine.submit_limit_order(Side::Sell, 2, price("100.00")).unwrap();
    engine.submit_limit_order(Side::Sell, 2, price("102.00")).unwrap();
    let buy = engine.submit_limit_order(Side::Buy, 10, price("101.00")).unwrap();
    let prices: Vec<i64> = buy.trades.iter().map(|t| t.price.cents()).collect();
    assert_eq!(prices, vec![10_000, 10_100]);
    assert!(buy.trades.iter().all(|t| t.price.cents() <= 10_100 && t.taker_order_id == 4));
    assert_eq!(buy.remaining, 6);
    assert_eq!(engine.book().best_bid(), Some(price("101.00")));
    assert_eq!(engine.book().best_ask(), Some(price("102.00")));
}

#[test]
fn sell_sweeps_bids_from_the_highest_down() {
    let mut engine = MatchingEngine::new();
    engine.submit_limit_order(Side::Buy, 1, price("98.00")).unwrap();
    engine.submit_limit_order(Side::Buy, 1, price("99.00")).unwrap();
    engine.submit_limit_order(Side::Buy, 1, price("99.00")).unwrap();
    let sell = engine.submit_limit_order(Side::Sell, 5, price("98.50")).unwrap();
    let makers: Vec<u64> = sell.trades.iter().map(|t| t.maker_order_id).collect();
    assert_eq!(makers, vec![2, 3]);
    assert_eq!(sell.remaining, 3);
    assert_eq!(engine.book().best_ask(), Some(price("98.50")));
    assert_eq!(engine.book().best_bid(), Some(price("98.00")));
}

#[test]
fn book_is_never_crossed_after_a_sequence_of_orders() {
    let mut engine = MatchingEngine::new();
    let orders = [
        (Side::Sell, 5, "100.00"),
        (Side::Buy, 3, "99.50"),
        (Side::Buy, 8, "100.25"),
        (Side::Sell, 2, "99.00"),
        (Side::Sell, 4, "101.00"),
        (Side::Buy, 1, "100.75"),
    ];
    for (side, quantity, text) in orders {
        engine.submit_limit_order(side, quantity, price(text)).unwrap();
        let book = engine.book();
        if let (Some(bid), Some(ask)) = (book.best_bid(), book.best_ask()) {
            assert!(bid.cents() < ask.cents());
            assert!(book.spread().unwrap() > 0);
        }
    }
}

#[test]
fn market_order_never_rests_even_on_an_empty_book() {
    let mut engine = MatchingEngine::new();
    let market = engine.submit_market_order(Side::Sell, 4).unwrap();
    assert_eq!(market.order_id, 1);
    assert!(market.trades.is_empty());
    assert_eq!(market.remaining, 4);
    assert_eq!(engine.book().total_orders(), 0);
    assert_eq!(engine.stats().submitted_orders, 1);
}

#[test]
fn price_text_round_trips() {
    for cents in [1_i64, 5, 99, 100, 10_050, 123_456, i64::MAX] {
        let p = Price::from_cents(cents).unwrap();
        assert_eq!(Price::parse(&p.to_string()).unwrap(), p);
    }
    assert_eq!(Price::from_cents(5).unwrap().to_string(), "0.05");
    assert_eq!(Price::from_cents(i64::MAX).unwrap().to_string(), "92233720368547758.07");
}

#[test]
fn price_parser_accepts_what_integer_parsing_accepts() {
    assert_eq!(price(" 12.3 ").cents(), 1230);
    assert_eq!(price("+5").cents(), 500);
    assert_eq!(price("1.").cents(), 100);
    assert_eq!(price("1.+5").cents(), 105);
    assert_eq!(price("1.-5").cents(), 95);
    assert_eq!(price("007.07").cents(), 707);
}

#[test]
fn price_parser_errors() {
    assert_eq!(parse_error(""), "price cannot be empty");
    assert_eq!(parse_error(" \t "), "price cannot be empty");
    assert_eq!(parse_error("-1"), "price must be positive");
    assert_eq!(parse_error("0"), "price must be positive");
    assert_eq!(parse_error("0.00"), "price must be positive");
    assert_eq!(parse_error("1.2.3"), "invalid price '1.2.3'");
    assert_eq!(parse_error(" abc"), "invalid price ' abc'");
    assert_eq!(parse_error(".5"), "invalid price '.5'");
    assert_eq!(parse_error("1.234"), "prices support at most two decimals");
    assert_eq!(parse_error("1.é"), "invalid price '1.é'");
    assert_eq!(parse_error("1.éé"), "prices support at most two decimals");
    assert_eq!(parse_error("99999999999999999999"), "invalid price '99999999999999999999'");
}

#[test]
fn price_parser_overflow_check() {
    assert!(Price::parse_overflows("92233720368547758.08"));
    assert!(Price::parse_overflows("100000000000000000"));
    assert!(!Price::parse_overflows("92233720368547758.07"));
    assert!(!Price::parse_overflows("not a price"));
    assert_eq!(price("92233720368547758.07").cents(), i64::MAX);
}

#[test]
fn price_from_cents_rejects_non_positive() {
    assert_eq!(Price::from_cents(0).unwrap_err(), "price must be positive");
    assert!(Price::from_cents(-5).is_err());
    assert_eq!(Price::from_cents(10_050).unwrap().cents(), 10_050);
}

#[test]
fn side_reads_any_case() {
    assert_eq!(Side::from_str("BUY"), Ok(Side::Buy));
    assert_eq!(Side::from_str("Bid"), Ok(Side::Buy));
    assert_eq!(Side::from_str("b"), Ok(Side::Buy));
    assert_eq!(Side::from_str("SELL"), Ok(Side::Sell));
    assert_eq!(Side::from_str("Ask"), Ok(Side::Sell));
    assert_eq!(Side::from_str("S"), Ok(Side::Sell));
    assert_eq!(
        Side::from_str("Hold"),
        Err("unknown side 'hold', expected buy or sell".to_string())
    );
    assert_eq!(Side::from_lowercase("sell"), Ok(Side::Sell));
    assert_eq!(Side::Buy.to_string(), "BUY");
    assert_eq!(Side::Sell.to_string(), "SELL");
}

#[test]
fn order_rejects_zero_quantity() {
    let err = Order::new(1, Side::Buy, price("1.00"), 0, 1).unwrap_err();
    assert_eq!(err, "quantity must be greater than zero");
    let order = Order::new(7, Side::Sell, price("2.00"), 3, 9).unwrap();
    assert_eq!(order.remaining, 3);
    assert!(!order.is_filled());
}

#[test]
fn zero_quantity_limit_order_still_takes_an_id() {
    let mut engine = MatchingEngine::new();
    let refused = engine.submit_limit_order(Side::Buy, 0, price("1.00"));
    assert_eq!(refused.unwrap_err(), "quantity must be greater than zero");
    let accepted = engine.submit_limit_order(Side::Buy, 1, price("1.00")).unwrap();
    assert_eq!(accepted.order_id, 2);
    assert_eq!(engine.stats().submitted_orders, 2);
}

#[test]
fn cancel_twice_gives_nothing_the_second_time() {
    let mut engine = MatchingEngine::new();
    let sell = engine.submit_limit_order(Side::Sell, 2, price("5.00")).unwrap();
    assert!(engine.cancel_order(sell.order_id).is_some());
    assert!(engine.cancel_order(sell.order_id).is_none());
    assert!(engine.cancel_order(42).is_none());
}

#[test]
fn modify_unknown_order_names_the_id() {
    let mut engine = MatchingEngine::new();
    let err = engine.modify_order(999, 5, price("100.00")).unwrap_err();
    assert_eq!(err, "unknown order id 999");
    engine.submit_limit_order(Side::Buy, 5, price("100.00")).unwrap();
    let err = engine.modify_order(1, 0, price("100.00")).unwrap_err();
    assert_eq!(err, "quantity must be greater than zero");
}

#[test]
fn modified_trades_are_logged() {
    let mut engine = MatchingEngine::new();
    engine.submit_limit_order(Side::Sell, 2, price("10.00")).unwrap();
    engine.submit_limit_order(Side::Buy, 5, price("9.00")).unwrap();
    let modified = engine.modify_order(2, 5, price("10.00")).unwrap();
    assert_eq!(modified.trades.len(), 1);
    assert_eq!(engine.trades().len(), 1);
    assert_eq!(engine.trades()[0].taker_order_id, 2);
    assert_eq!(engine.cancel_order(2).unwrap().sequence, 3);
}

#[test]
fn stats_report_matches_the_documented_example() {
    let mut engine = MatchingEngine::new();
    engine.submit_limit_order(Side::Sell, 10, price("100.00")).unwrap();
    engine.submit_limit_order(Side::Buy, 4, price("101.00")).unwrap();
    engine.submit_limit_order(Side::Sell, 3, price("102.00")).unwrap();
    engine.submit_limit_order(Side::Buy, 8, price("102.00")).unwrap();
    let stats = engine.stats();
    let expected = "\n========== ENGINE STATS ==========\n\
Submitted orders     : 4\n\
Resting orders       : 1\n\
Total trades         : 3\n\
Executed volume      : 12\n\
Resting bid volume   : 0\n\
Resting ask volume   : 1\n\
Best bid             : -\n\
Best ask             : 102.00\n\
Spread               : -\n\
Notional traded      : 1204.00\n\
Average trade price  : 100.33\n\
==================================\n";
    assert_eq!(stats.format(), expected);
}

#[test]
fn stats_without_trades_have_no_average() {
    let engine = MatchingEngine::new();
    let stats = engine.stats();
    assert_eq!(stats.average_trade_price(), None);
    assert_eq!(stats.spread_cents, None);
}

#[test]
fn negative_spread_is_written_with_its_sign() {
    let stats = EngineStats {
        submitted_orders: 0,
        resting_orders: 0,
        total_trades: 0,
        executed_volume: 0,
        resting_bid_volume: 0,
        resting_ask_volume: 0,
        best_bid: None,
        best_ask: None,
        spread_cents: Some(-150),
        notional_traded_cents: 5,
    };
    let text = stats.format();
    assert!(text.contains("Spread               : -1.50\n"));
    assert!(text.contains("Notional traded      : 0.05\n"));
    assert!(text.contains("Average trade price  : -\n"));
}

#[test]
fn depth_view_shows_levels_best_first() {
    let mut book = OrderBook::new();
    book.add_order(Order::new(1, Side::Sell, price("101.00"), 2, 1).unwrap());
    book.add_order(Order::new(2, Side::Sell, price("100.50"), 3, 2).unwrap());
    book.add_order(Order::new(3, Side::Sell, price("100.50"), 4, 3).unwrap());
    book.add_order(Order::new(4, Side::Buy, price("99.00"), 5, 4).unwrap());
    book.add_order(Order::new(5, Side::Buy, price("99.50"), 6, 5).unwrap());
    let expected = "\n========== ORDER BOOK ==========\n\
ASKS\n\
Price      Quantity   Orders\n\
-------------------------------\n\
100.50 7          2\n\
-------------------------------\n\
BIDS\n\
Price      Quantity   Orders\n\
-------------------------------\n\
99.50 6          1\n\
===============================\n";
    assert_eq!(book.format_depth(1), expected);
    assert!(book.format_depth(5).contains("101.00 2          1\n"));
    assert!(book.format_depth(5).contains("99.00 5          1\n"));
}

#[test]
fn book_cancel_takes_the_first_match_and_keeps_fifo() {
    let mut book = OrderBook::new();
    book.add_order(Order::new(1, Side::Buy, price("10.00"), 1, 1).unwrap());
    book.add_order(Order::new(2, Side::Buy, price("10.00"), 2, 2).unwrap());
    book.add_order(Order::new(3, Side::Sell, price("11.00"), 3, 3).unwrap());
    assert_eq!(book.total_orders(), 3);
    assert_eq!(book.total_volume(Side::Buy), 3);
    assert_eq!(book.cancel(2).unwrap().remaining, 2);
    assert_eq!(book.cancel(3).unwrap().side, Side::Sell);
    assert!(book.cancel(3).is_none());
    assert_eq!(book.spread(), None);
}

#[test]
fn benchmark_prices_cycle() {
    assert_eq!(benchmark_price(0, Side::Sell).cents(), 10_000);
    assert_eq!(benchmark_price(7, Side::Buy).cents(), 10_057);
    assert_eq!(benchmark_price(199, Side::Sell).cents(), 10_099);
}

#[test]
fn cancelling_a_resting_order_restores_the_book() {
    let mut engine = MatchingEngine::new();
    engine.submit_limit_order(Side::Sell, 5, price("101.00")).unwrap();
    engine.submit_limit_order(Side::Buy, 3, price("99.00")).unwrap();
    let before = engine.book().format_depth(10);
    let resting = engine.submit_limit_order(Side::Buy, 2, price("100.00")).unwrap();
    assert!(resting.trades.is_empty());
    assert_ne!(engine.book().format_depth(10), before);
    let cancelled = engine.cancel_order(resting.order_id).unwrap();
    assert_eq!(cancelled.remaining, 2);
    assert_eq!(cancelled.price, price("100.00"));
    assert_eq!(engine.book().format_depth(10), before);
}

#[test]
fn trade_log_totals_grow_by_each_orders_trades() {
    let mut engine = MatchingEngine::new();
    engine.submit_limit_order(Side::Sell, 5, price("10.00")).unwrap();
    engine.submit_limit_order(Side::Sell, 5, price("10.10")).unwrap();
    let before = engine.stats();
    let buy = engine.submit_limit_order(Side::Buy, 7, price("10.10")).unwrap();
    let after = engine.stats();
    let volume: u64 = buy.trades.iter().map(|t| t.quantity).sum();
    let value: u128 = buy
        .trades
        .iter()
        .map(|t| t.quantity as u128 * t.price.cents() as u128)
        .sum();
    assert_eq!(after.executed_volume, before.executed_volume + volume);
    assert_eq!(after.notional_traded_cents, before.notional_traded_cents + value);
    assert_eq!(after.notional_traded_cents, 5 * 1000 + 2 * 1010);
}

#[test]
fn benchmark_orders_are_generated_and_all_accepted() {
    let mut engine = MatchingEngine::new();
    rust_matching_engine::benchmark::run_benchmark_orders(&mut engine, 4);
    let stats = engine.stats();
    assert_eq!(stats.submitted_orders, 4);
    assert_eq!(stats.total_trades, 3);
    assert_eq!(stats.executed_volume, 4);
    assert_eq!(stats.resting_bid_volume, 2);
    assert_eq!(stats.resting_ask_volume, 0);
    assert_eq!(stats.best_bid, Some(price("100.53")));
    assert_eq!(stats.notional_traded_cents, 10_000 + 10_051 + 2 * 10_002);
}

#[test]
fn quantity_is_conserved_over_submissions_and_cancels() {
    let mut engine = MatchingEngine::new();
    let mut handed_in: u64 = 0;
    let mut taken_back: u64 = 0;
    let a = engine.submit_limit_order(Side::Sell, 6, price("10.00")).unwrap();
    handed_in += 6;
    engine.submit_limit_order(Side::Sell, 4, price("10.20")).unwrap();
    handed_in += 4;
    engine.submit_limit_order(Side::Buy, 3, price("9.90")).unwrap();
    handed_in += 3;
    engine.submit_limit_order(Side::Buy, 8, price("10.10")).unwrap();
    handed_in += 8;
    if let Some(o) = engine.cancel_order(a.order_id) {
        taken_back += o.remaining;
    }
    let b = engine.submit_limit_order(Side::Sell, 5, price("9.95")).unwrap();
    handed_in += 5;
    if let Some(o) = engine.cancel_order(b.order_id) {
        taken_back += o.remaining;
    }
    assert!(engine.cancel_order(9_999).is_none());
    let r = engine.stats();
    assert_eq!(
        handed_in,
        2 * r.executed_volume + r.resting_bid_volume + r.resting_ask_volume + taken_back
    );
    assert_eq!(r.executed_volume, 6 + 2);
}

#[test]
fn submission_moves_volume_and_a_cancel_returns_the_rest() {
    let mut engine = MatchingEngine::new();
    engine.submit_limit_order(Side::Sell, 3, price("50.00")).unwrap();
    engine.submit_limit_order(Side::Sell, 4, price("50.50")).unwrap();
    engine.submit_limit_order(Side::Buy, 2, price("49.00")).unwrap();
    let bids = engine.book().total_volume(Side::Buy);
    let asks = engine.book().total_volume(Side::Sell);
    let r = engine.submit_limit_order(Side::Buy, 10, price("50.50")).unwrap();
    let traded: u64 = r.trades.iter().map(|t| t.quantity).sum();
    assert_eq!(traded, 7);
    assert_eq!(r.remaining, 3);
    assert_eq!(engine.book().total_volume(Side::Buy), bids + r.remaining);
    assert_eq!(engine.book().total_volume(Side::Sell), asks - traded);
    assert_eq!(engine.book().best_ask(), None);
    let cancelled = engine.cancel_order(r.order_id).unwrap();
    assert_eq!(cancelled.id, r.order_id);
    assert_eq!(cancelled.side, Side::Buy);
    assert_eq!(cancelled.price, price("50.50"));
    assert_eq!(cancelled.quantity, 10);
    assert_eq!(cancelled.remaining, 3);

    let filled = engine.submit_limit_order(Side::Sell, 2, price("48.00")).unwrap();
    assert_eq!(filled.remaining, 0);
    assert!(engine.cancel_order(filled.order_id).is_none());
}

#[test]
fn trade_log_is_the_responses_trades_in_order() {
    let mut engine = MatchingEngine::new();
    let mut expected = Vec::new();
    let first = engine.submit_limit_order(Side::Buy, 5, price("20.00")).unwrap();
    expected.extend(first.trades.clone());
    let second = engine.submit_limit_order(Side::Buy, 5, price("20.10")).unwrap();
    expected.extend(second.trades.clone());
    assert!(engine.cancel_order(second.order_id).is_some());
    assert!(engine.submit_limit_order(Side::Sell, 0, price("20.00")).is_err());
    let third = engine.submit_limit_order(Side::Sell, 7, price("19.00")).unwrap();
    assert_eq!(third.trades.len(), 1);
    expected.extend(third.trades.clone());
    let fourth = engine.submit_limit_order(Side::Buy, 1, price("19.50")).unwrap();
    expected.extend(fourth.trades.clone());
    assert_eq!(engine.trades(), expected.as_slice());
    assert_eq!(engine.trades().len(), 2);
}

#[test]
fn price_from_str_reads_like_parse_and_refuses_overflow() {
    assert_eq!(Price::from_str("100.50").unwrap().cents(), 10_050);
    assert_eq!("7".parse::<Price>().unwrap(), price("7.00"));
    assert_eq!(Price::from_str("1.234").unwrap_err(), "prices support at most two decimals");
    assert_eq!(Price::from_str("-1").unwrap_err(), "price must be positive");
    assert_eq!(Price::from_str("92233720368547758.08").unwrap_err(), "price is out of range");
    assert_eq!(Price::from_str("92233720368547758.07").unwrap().cents(), i64::MAX);
}

#[test]
fn orders_at_one_price_trade_in_arrival_order_and_a_resubmission_goes_last() {
    let mut engine = MatchingEngine::new();
    let a = engine.submit_limit_order(Side::Sell, 2, price("30.00")).unwrap();
    let b = engine.submit_limit_order(Side::Sell, 2, price("30.00")).unwrap();
    let c = engine.submit_limit_order(Side::Sell, 2, price("30.00")).unwrap();
    let moved = engine.modify_order(a.order_id, 3, price("30.00")).unwrap();
    assert!(moved.reprioritized);
    let buy = engine.submit_limit_order(Side::Buy, 7, price("30.00")).unwrap();
    let makers: Vec<u64> = buy.trades.iter().map(|t| t.maker_order_id).collect();
    assert_eq!(makers, vec![b.order_id, c.order_id, a.order_id]);
    assert_eq!(buy.remaining, 0);
    assert!(engine.cancel_order(a.order_id).is_none());
}
