use vstd::prelude::*;

use crate::engine::OrderResponse;
use crate::order::Order;
use crate::text::{
    cents_text, chars_of, decimal, parse_unsigned, parse_unsigned_chars, push_cents,
    push_decimal, split_line_pieces, split_whitespace_chars, string_of, trim, trim_chars,
    words, line_pieces,
};
use crate::trade::Trade;
use crate::types::{lowercase, parsed_price, price_overflows, OrderId, Price, Quantity, Side};

verus! {

/// One command of a scenario.
#[derive(Debug, Clone, Copy, PartialEq, Eq)]
pub enum Command {
    Submit { side: Side, quantity: Quantity, price: Price },
    SubmitMarket { side: Side, quantity: Quantity },
    Cancel { order_id: OrderId },
    Book { depth: usize },
    Trades,
    Stats,
}

/// Why a scenario line is not run: the message to report, or a price whose whole
/// units do not fit in cents.
#[derive(Debug)]
pub enum CommandError {
    Message(String),
    PriceOverflow,
}

/// "BUY" or "SELL".
pub open spec fn side_text(side: Side) -> Seq<char> {
    match side {
        Side::Buy => "BUY"@,
        Side::Sell => "SELL"@,
    }
}

/// A side word, read whatever its case.
pub open spec fn side_field(word: Seq<char>) -> Result<Side, Seq<char>> {
    match Side::named(lowercase(word)) {
        Some(side) => Ok(side),
        None => Err("unknown side '"@ + lowercase(word) + "', expected buy or sell"@),
    }
}

/// A quantity word.
pub open spec fn quantity_field(word: Seq<char>) -> Result<nat, Seq<char>> {
    match parse_unsigned(word, u64::MAX as nat) {
        Some(q) => Ok(q),
        None => Err("invalid quantity '"@ + word + "': expected a positive integer"@),
    }
}

/// A price word: its cents, or the message, or none when scaling it overflows.
pub open spec fn price_field(word: Seq<char>) -> Result<int, Option<Seq<char>>> {
    if price_overflows(word) {
        Err(None)
    } else {
        match parsed_price(word) {
            Ok(c) => Ok(c),
            Err(m) => Err(Some(m)),
        }
    }
}

/// The words of a `submit` line: side, quantity and price in cents; or the message,
/// or none when the price overflows.
pub open spec fn submit_reading(w: Seq<Seq<char>>) -> Result<(Side, nat, int), Option<Seq<char>>> {
    if w.len() != 4 {
        Err(Some("Usage: submit <buy|sell> <quantity> <price>"@))
    } else {
        match side_field(w[1]) {
            Err(m) => Err(Some(m)),
            Ok(side) => match quantity_field(w[2]) {
                Err(m) => Err(Some(m)),
                Ok(q) => match price_field(w[3]) {
                    Err(e) => Err(e),
                    Ok(c) => Ok((side, q, c)),
                },
            },
        }
    }
}

/// The words of a `submit-market` line: side and quantity, or the message.
pub open spec fn market_reading(w: Seq<Seq<char>>) -> Result<(Side, nat), Seq<char>> {
    if w.len() != 3 {
        Err("Usage: submit-market <buy|sell> <quantity>"@)
    } else {
        match side_field(w[1]) {
            Err(m) => Err(m),
            Ok(side) => match quantity_field(w[2]) {
                Err(m) => Err(m),
                Ok(q) => Ok((side, q)),
            },
        }
    }
}

/// The words of a `cancel` line: the order id, or the message.
pub open spec fn cancel_reading(w: Seq<Seq<char>>) -> Result<nat, Seq<char>> {
    if w.len() != 2 {
        Err("Usage: cancel <order_id>"@)
    } else {
        match parse_unsigned(w[1], u64::MAX as nat) {
            Some(id) => Ok(id),
            None => Err("invalid order id '"@ + w[1] + "'"@),
        }
    }
}

/// The depth of a `book` line: its second word when that reads as a `usize`, else 5.
pub open spec fn book_depth(w: Seq<Seq<char>>) -> nat {
    if w.len() > 1 && parse_unsigned(w[1], usize::MAX as nat) is Some {
        parse_unsigned(w[1], usize::MAX as nat)->0
    } else {
        5
    }
}

/// The lines of a scenario that hold commands: each line trimmed, without blank
/// lines and without comment lines (those starting with '#').
pub open spec fn command_lines(pieces: Seq<Seq<char>>) -> Seq<Seq<char>>
    decreases pieces.len(),
{
    if pieces.len() == 0 {
        Seq::empty()
    } else {
        let rest = command_lines(pieces.drop_last());
        let line = trim(pieces.last());
        if line.len() == 0 || line[0] == '#' {
            rest
        } else {
            rest.push(line)
        }
    }
}

/// The command lines of a scenario text, in order.
pub fn scenario_lines(text: &str) -> (lines: Vec<String>)
    ensures
        lines@.len() == command_lines(line_pieces(text@)).len(),
        forall|i: int|
            0 <= i < lines@.len() ==> (#[trigger] lines@[i])@ == command_lines(line_pieces(text@))[i],
{
    let chars = chars_of(text);
    let pieces = split_line_pieces(&chars);
    let ghost all = line_pieces(text@);
    let mut lines: Vec<String> = Vec::new();
    let mut i: usize = 0;
    while i < pieces.len()
        invariant
            0 <= i <= pieces@.len(),
            pieces@.len() == all.len(),
            forall|j: int| 0 <= j < pieces@.len() ==> (#[trigger] pieces@[j])@ == all[j],
            lines@.len() == command_lines(all.take(i as int)).len(),
            forall|j: int|
                0 <= j < lines@.len() ==> (#[trigger] lines@[j])@ == command_lines(
                    all.take(i as int),
                )[j],
        decreases pieces@.len() - i,
    {
        proof {
            assert(all.take(i + 1).drop_last() =~= all.take(i as int));
            assert(all.take(i + 1).last() == pieces@[i as int]@);
        }
        let ghost before = command_lines(all.take(i as int));
        let line = trim_chars(&pieces[i]);
        if line.len() > 0 && line[0] != '#' {
            let text_line = string_of(&line);
            lines.push(text_line);
            proof {
                let after = command_lines(all.take(i + 1));
                assert forall|j: int| 0 <= j < lines@.len() implies (#[trigger] lines@[j])@
                    == after[j] by {
                    if j < lines@.len() - 1 {
                        assert(after[j] == before[j]);
                    }
                }
            }
        }
        i = i + 1;
    }
    assert(all.take(all.len() as int) =~= all);
    lines
}

/// Reads one scenario line into its command: none for a blank line, the message for
/// a line that cannot run.
pub fn parse_command(line: &str) -> (res: Result<Option<Command>, CommandError>)
    ensures
        ({
            let w = words(line@);
            &&& w.len() == 0 ==> (res matches Ok(None))
            &&& w.len() > 0 && w[0] == "submit"@ ==> (match submit_reading(w) {
                Ok((side, q, c)) => (res matches Ok(Some(Command::Submit { side: s, quantity, price }))
                    && s == side && quantity == q && price.view_cents() == c),
                Err(Some(m)) => (res matches Err(CommandError::Message(e)) && e@ == m),
                Err(None) => (res matches Err(CommandError::PriceOverflow)),
            })
            &&& w.len() > 0 && w[0] == "submit-market"@ ==> (match market_reading(w) {
                Ok((side, q)) => res == Ok::<Option<Command>, CommandError>(
                    Some(Command::SubmitMarket { side, quantity: q as u64 }),
                ),
                Err(m) => (res matches Err(CommandError::Message(e)) && e@ == m),
            })
            &&& w.len() > 0 && w[0] == "cancel"@ ==> (match cancel_reading(w) {
                Ok(id) => res == Ok::<Option<Command>, CommandError>(
                    Some(Command::Cancel { order_id: id as u64 }),
                ),
                Err(m) => (res matches Err(CommandError::Message(e)) && e@ == m),
            })
            &&& w.len() > 0 && w[0] == "book"@ ==> res == Ok::<Option<Command>, CommandError>(
                Some(Command::Book { depth: book_depth(w) as usize }),
            )
            &&& w.len() > 0 && w[0] == "trades"@ ==> res == Ok::<Option<Command>, CommandError>(
                Some(Command::Trades),
            )
            &&& w.len() > 0 && w[0] == "stats"@ ==> res == Ok::<Option<Command>, CommandError>(
                Some(Command::Stats),
            )
            &&& w.len() > 0 && w[0] != "submit"@ && w[0] != "submit-market"@ && w[0] != "cancel"@
                && w[0] != "book"@ && w[0] != "trades"@ && w[0] != "stats"@ ==> (res matches Err(
                CommandError::Message(e),
            ) && e@ == "Unknown command: "@ + w[0])
        }),
{
    proof {
        lemma_command_names_differ();
    }
    let chars = chars_of(line);
    let parts = split_whitespace_chars(&chars);
    if parts.len() == 0 {
        return Ok(None);
    }
    let name = string_of(&parts[0]);
    if name == String::from_str("submit") {
        if parts.len() != 4 {
            return Err(
                CommandError::Message(String::from_str("Usage: submit <buy|sell> <quantity> <price>")),
            );
        }
        let side = match read_side(&parts[1]) {
            Ok(side) => side,
            Err(e) => return Err(CommandError::Message(e)),
        };
        let quantity = match read_quantity(&parts[2]) {
            Ok(q) => q,
            Err(e) => return Err(CommandError::Message(e)),
        };
        let price_text = string_of(&parts[3]);
        if Price::parse_overflows(price_text.as_str()) {
            return Err(CommandError::PriceOverflow);
        }
        let price = match Price::parse(price_text.as_str()) {
            Ok(p) => p,
            Err(e) => return Err(CommandError::Message(e)),
        };
        Ok(Some(Command::Submit { side, quantity, price }))
    } else if name == String::from_str("submit-market") {
        if parts.len() != 3 {
            return Err(
                CommandError::Message(String::from_str("Usage: submit-market <buy|sell> <quantity>")),
            );
        }
        let side = match read_side(&parts[1]) {
            Ok(side) => side,
            Err(e) => return Err(CommandError::Message(e)),
        };
        let quantity = match read_quantity(&parts[2]) {
            Ok(q) => q,
            Err(e) => return Err(CommandError::Message(e)),
        };
        Ok(Some(Command::SubmitMarket { side, quantity }))
    } else if name == String::from_str("cancel") {
        if parts.len() != 2 {
            return Err(CommandError::Message(String::from_str("Usage: cancel <order_id>")));
        }
        match parse_unsigned_chars(&parts[1], 0xffff_ffff_ffff_ffff) {
            Some(order_id) => Ok(Some(Command::Cancel { order_id })),
            None => {
                let mut message = String::from_str("invalid order id '");
                message.append(string_of(&parts[1]).as_str());
                message.append("'");
                Err(CommandError::Message(message))
            },
        }
    } else if name == String::from_str("book") {
        let mut depth: usize = 5;
        if parts.len() > 1 {
            match parse_unsigned_chars(&parts[1], usize::MAX as u64) {
                Some(d) => {
                    depth = d as usize;
                },
                None => {},
            }
        }
        Ok(Some(Command::Book { depth }))
    } else if name == String::from_str("trades") {
        Ok(Some(Command::Trades))
    } else if name == String::from_str("stats") {
        Ok(Some(Command::Stats))
    } else {
        let mut message = String::from_str("Unknown command: ");
        message.append(name.as_str());
        Err(CommandError::Message(message))
    }
}

/// The six command names are six different words.
proof fn lemma_command_names_differ()
    ensures
        "submit"@ != "submit-market"@,
        "submit"@ != "cancel"@,
        "submit"@ != "book"@,
        "submit"@ != "trades"@,
        "submit"@ != "stats"@,
        "submit-market"@ != "cancel"@,
        "submit-market"@ != "book"@,
        "submit-market"@ != "trades"@,
        "submit-market"@ != "stats"@,
        "cancel"@ != "book"@,
        "cancel"@ != "trades"@,
        "cancel"@ != "stats"@,
        "book"@ != "trades"@,
        "book"@ != "stats"@,
        "trades"@ != "stats"@,
{
    reveal_strlit("submit");
    reveal_strlit("submit-market");
    reveal_strlit("cancel");
    reveal_strlit("book");
    reveal_strlit("trades");
    reveal_strlit("stats");
    assert("submit"@.len() == 6);
    assert("submit-market"@.len() == 13);
    assert("cancel"@.len() == 6);
    assert("book"@.len() == 4);
    assert("trades"@.len() == 6);
    assert("stats"@.len() == 5);
    assert("submit"@[0] != "cancel"@[0]);
    assert("submit"@[0] != "trades"@[0]);
    assert("cancel"@[0] != "trades"@[0]);
}

fn read_side(word: &Vec<char>) -> (res: Result<Side, String>)
    ensures
        side_field(word@) matches Ok(side) ==> res == Ok::<Side, String>(side),
        side_field(word@) matches Err(m) ==> (res matches Err(e) && e@ == m),
{
    let text = string_of(word);
    <Side as std::str::FromStr>::from_str(text.as_str())
}

fn read_quantity(word: &Vec<char>) -> (res: Result<Quantity, String>)
    ensures
        quantity_field(word@) matches Ok(q) ==> res == Ok::<Quantity, String>(q as u64),
        quantity_field(word@) matches Err(m) ==> (res matches Err(e) && e@ == m),
{
    match parse_unsigned_chars(word, 0xffff_ffff_ffff_ffff) {
        Some(q) => Ok(q),
        None => {
            let mut message = String::from_str("invalid quantity '");
            message.append(string_of(word).as_str());
            message.append("': expected a positive integer");
            Err(message)
        },
    }
}

/// "TRADE taker=.. maker=.. qty=.. price=..": one trade as a submission reports it.
pub open spec fn trade_report(t: Trade) -> Seq<char> {
    "TRADE "@ + trade_text(t)
}

/// "taker=.. maker=.. qty=.. price=..": one trade of the log.
pub open spec fn trade_text(t: Trade) -> Seq<char> {
    "taker="@ + decimal(t.taker_order_id as nat) + " maker="@ + decimal(t.maker_order_id as nat)
        + " qty="@ + decimal(t.quantity as nat) + " price="@ + cents_text(
        t.price.view_cents() as nat,
    )
}

/// The line that reports an accepted limit order.
pub open spec fn submitted_text(
    id: OrderId,
    side: Side,
    quantity: Quantity,
    price: Price,
    remaining: Quantity,
    trades: nat,
) -> Seq<char> {
    "SUBMITTED id="@ + decimal(id as nat) + " side="@ + side_text(side) + " qty="@ + decimal(
        quantity as nat,
    ) + " price="@ + cents_text(price.view_cents() as nat) + " remaining="@ + decimal(
        remaining as nat,
    ) + " trades="@ + decimal(trades)
}

/// The line that reports an accepted market order.
pub open spec fn market_submitted_text(
    id: OrderId,
    side: Side,
    quantity: Quantity,
    remaining: Quantity,
    trades: nat,
) -> Seq<char> {
    "MARKET_SUBMITTED id="@ + decimal(id as nat) + " side="@ + side_text(side) + " qty="@
        + decimal(quantity as nat) + " remaining="@ + decimal(remaining as nat) + " trades="@
        + decimal(trades)
}

/// The line that reports a cancelled order.
pub open spec fn cancelled_text(o: Order) -> Seq<char> {
    "CANCELLED id="@ + decimal(o.id as nat) + " side="@ + side_text(o.side) + " remaining="@
        + decimal(o.remaining as nat) + " price="@ + cents_text(o.price.view_cents() as nat)
}

/// Appends the decimal representation of a `u64`.
fn push_number(s: &mut String, n: u64)
    ensures
        final(s)@ == old(s)@ + decimal(n as nat),
{
    push_decimal(s, n as u128);
}

/// Appends a price with two decimals.
fn push_price(s: &mut String, p: Price)
    ensures
        final(s)@ == old(s)@ + cents_text(p.view_cents() as nat),
{
    let c = p.cents();
    push_cents(s, c as u128);
}

/// "taker=.. maker=.. qty=.. price=..".
pub fn trade_line(trade: &Trade) -> (s: String)
    ensures
        s@ == trade_text(*trade),
{
    let mut s = String::from_str("taker=");
    push_number(&mut s, trade.taker_order_id);
    s.append(" maker=");
    push_number(&mut s, trade.maker_order_id);
    s.append(" qty=");
    push_number(&mut s, trade.quantity);
    s.append(" price=");
    push_price(&mut s, trade.price);
    s
}

/// "TRADE taker=.. maker=.. qty=.. price=..".
pub fn trade_report_line(trade: &Trade) -> (s: String)
    ensures
        s@ == trade_report(*trade),
{
    let mut s = String::from_str("TRADE ");
    s.append(trade_line(trade).as_str());
    s
}

/// "SUBMITTED id=.. side=.. qty=.. price=.. remaining=.. trades=..".
pub fn submitted_line(response: &OrderResponse, side: Side, quantity: Quantity, price: Price) -> (s:
    String)
    ensures
        s@ == submitted_text(
            response.order_id,
            side,
            quantity,
            price,
            response.remaining,
            response.trades@.len(),
        ),
{
    let mut s = String::from_str("SUBMITTED id=");
    push_number(&mut s, response.order_id);
    s.append(" side=");
    s.append(side.to_string().as_str());
    s.append(" qty=");
    push_number(&mut s, quantity);
    s.append(" price=");
    push_price(&mut s, price);
    s.append(" remaining=");
    push_number(&mut s, response.remaining);
    s.append(" trades=");
    push_decimal(&mut s, response.trades.len() as u128);
    s
}

/// "MARKET_SUBMITTED id=.. side=.. qty=.. remaining=.. trades=..".
pub fn market_submitted_line(response: &OrderResponse, side: Side, quantity: Quantity) -> (s:
    String)
    ensures
        s@ == market_submitted_text(
            response.order_id,
            side,
            quantity,
            response.remaining,
            response.trades@.len(),
        ),
{
    let mut s = String::from_str("MARKET_SUBMITTED id=");
    push_number(&mut s, response.order_id);
    s.append(" side=");
    s.append(side.to_string().as_str());
    s.append(" qty=");
    push_number(&mut s, quantity);
    s.append(" remaining=");
    push_number(&mut s, response.remaining);
    s.append(" trades=");
    push_decimal(&mut s, response.trades.len() as u128);
    s
}

/// "CANCELLED id=.. side=.. remaining=.. price=..".
pub fn cancelled_line(order: &Order) -> (s: String)
    ensures
        s@ == cancelled_text(*order),
{
    let mut s = String::from_str("CANCELLED id=");
    push_number(&mut s, order.id);
    s.append(" side=");
    s.append(order.side.to_string().as_str());
    s.append(" remaining=");
    push_number(&mut s, order.remaining);
    s.append(" price=");
    push_price(&mut s, order.price);
    s
}

/// "CANCEL_REJECTED id=..".
pub fn cancel_rejected_line(order_id: OrderId) -> (s: String)
    ensures
        s@ == "CANCEL_REJECTED id="@ + decimal(order_id as nat),
{
    let mut s = String::from_str("CANCEL_REJECTED id=");
    push_number(&mut s, order_id);
    s
}

} // verus!
