use rust_matching_engine::scenario::{
    cancel_rejected_line, cancelled_line, market_submitted_line, parse_command, scenario_lines,
    submitted_line, trade_line, trade_report_line, Command, CommandError,
};
use rust_matching_engine::{MatchingEngine, Price, Side};

fn price(value: &str) -> Price {
    Price::parse(value).unwrap()
}

fn message(line: &str) -> String {
    match parse_command(line) {
        Err(CommandError::Message(m)) => m,
        other => panic!("expected a message, got {other:?}"),
    }
}

#[test]
fn blank_lines_hold_no_command() {
    assert!(matches!(parse_command(""), Ok(None)));
    assert!(matches!(parse_command(" \t "), Ok(None)));
}

#[test]
fn submit_lines_are_read() {
    match parse_command("  submit\tBUY  10 100.5 ") {
        Ok(Some(Command::Submit { side, quantity, price: p })) => {
            assert_eq!(side, Side::Buy);
            assert_eq!(quantity, 10);
            assert_eq!(p, price("100.50"));
        }
        other => panic!("unexpected {other:?}"),
    }
    assert!(matches!(
        parse_command("submit-market sell 3"),
        Ok(Some(Command::SubmitMarket { side: Side::Sell, quantity: 3 }))
    ));
    assert!(matches!(parse_command("cancel 7"), Ok(Some(Command::Cancel { order_id: 7 }))));
    assert!(matches!(parse_command("book"), Ok(Some(Command::Book { depth: 5 }))));
    assert!(matches!(parse_command("book 10"), Ok(Some(Command::Book { depth: 10 }))));
    assert!(matches!(parse_command("book ten"), Ok(Some(Command::Book { depth: 5 }))));
    assert!(matches!(parse_command("trades"), Ok(Some(Command::Trades))));
    assert!(matches!(parse_command("stats now"), Ok(Some(Command::Stats))));
}

#[test]
fn malformed_lines_are_refused_with_the_message() {
    assert_eq!(message("submit buy 10"), "Usage: submit <buy|sell> <quantity> <price>");
    assert_eq!(message("submit hold 1 1"), "unknown side 'hold', expected buy or sell");
    assert_eq!(message("submit buy x 1"), "invalid quantity 'x': expected a positive integer");
    assert_eq!(message("submit buy -1 1"), "invalid quantity '-1': expected a positive integer");
    assert_eq!(message("submit buy 1 abc"), "invalid price 'abc'");
    assert_eq!(message("submit buy 1 0"), "price must be positive");
    assert_eq!(message("submit-market buy"), "Usage: submit-market <buy|sell> <quantity>");
    assert_eq!(message("cancel"), "Usage: cancel <order_id>");
    assert_eq!(message("cancel x"), "invalid order id 'x'");
    assert_eq!(message("fly away"), "Unknown command: fly");
    assert!(matches!(
        parse_command("submit buy 1 100000000000000000"),
        Err(CommandError::PriceOverflow)
    ));
}

#[test]
fn scenario_lines_skip_blanks_and_comments() {
    let text = "# header\r\n  submit sell 10 100.00  \r\n\n   # note\nbook 3\ntrades";
    let lines = scenario_lines(text);
    assert_eq!(lines, vec!["submit sell 10 100.00", "book 3", "trades"]);
    assert!(scenario_lines("").is_empty());
}

#[test]
fn report_lines_match_the_documented_output() {
    let mut engine = MatchingEngine::new();
    let sell = engine.submit_limit_order(Side::Sell, 10, price("100.00")).unwrap();
    assert_eq!(
        submitted_line(&sell, Side::Sell, 10, price("100.00")),
        "SUBMITTED id=1 side=SELL qty=10 price=100.00 remaining=10 trades=0"
    );
    let buy = engine.submit_limit_order(Side::Buy, 4, price("101.00")).unwrap();
    assert_eq!(
        submitted_line(&buy, Side::Buy, 4, price("101.00")),
        "SUBMITTED id=2 side=BUY qty=4 price=101.00 remaining=0 trades=1"
    );
    assert_eq!(trade_report_line(&buy.trades[0]), "TRADE taker=2 maker=1 qty=4 price=100.00");
    assert_eq!(trade_line(&buy.trades[0]), "taker=2 maker=1 qty=4 price=100.00");
    let market = engine.submit_market_order(Side::Buy, 1).unwrap();
    assert_eq!(
        market_submitted_line(&market, Side::Buy, 1),
        "MARKET_SUBMITTED id=3 side=BUY qty=1 remaining=0 trades=1"
    );
    let cancelled = engine.cancel_order(1).unwrap();
    assert_eq!(cancelled_line(&cancelled), "CANCELLED id=1 side=SELL remaining=5 price=100.00");
    assert_eq!(cancel_rejected_line(1), "CANCEL_REJECTED id=1");
}
