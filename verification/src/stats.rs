use vstd::prelude::*;

use crate::text::{cents_text, decimal, decimal_string, push_cents, push_char, signed_cents_text};
use crate::types::{Price, Quantity};

verus! {

/// A snapshot of an engine's counters and of its book.
#[derive(Debug, Clone, PartialEq, Eq)]
pub struct EngineStats {
    pub submitted_orders: u64,
    pub resting_orders: usize,
    pub total_trades: usize,
    pub executed_volume: Quantity,
    pub resting_bid_volume: Quantity,
    pub resting_ask_volume: Quantity,
    pub best_bid: Option<Price>,
    pub best_ask: Option<Price>,
    pub spread_cents: Option<i64>,
    pub notional_traded_cents: u128,
}

/// A price with two decimals, or "-" when there is none.
pub open spec fn price_text(price: Option<Price>) -> Seq<char> {
    match price {
        Some(p) => cents_text(p.view_cents() as nat),
        None => "-"@,
    }
}

/// A spread with two decimals and its sign, or "-" when there is none.
pub open spec fn spread_text(spread_cents: Option<i64>) -> Seq<char> {
    match spread_cents {
        Some(v) => signed_cents_text(v as int),
        None => "-"@,
    }
}

/// One line of the report: its label, its value, a line break.
pub open spec fn report_line(label: Seq<char>, value: Seq<char>) -> Seq<char> {
    label + value + seq!['\n']
}

impl EngineStats {
    /// The average price of the executed volume, in cents, rounded down; none while
    /// nothing traded.
    pub open spec fn average_cents(self) -> Option<nat> {
        if self.executed_volume == 0 {
            None
        } else {
            Some(self.notional_traded_cents as nat / self.executed_volume as nat)
        }
    }

    /// The text of the report.
    pub open spec fn report(self) -> Seq<char> {
        let average = match self.average_cents() {
            Some(c) => cents_text(c),
            None => "-"@,
        };
        "\n========== ENGINE STATS =========="@ + seq!['\n'] + report_line(
            "Submitted orders     : "@,
            decimal(self.submitted_orders as nat),
        ) + report_line("Resting orders       : "@, decimal(self.resting_orders as nat))
            + report_line("Total trades         : "@, decimal(self.total_trades as nat))
            + report_line("Executed volume      : "@, decimal(self.executed_volume as nat))
            + report_line("Resting bid volume   : "@, decimal(self.resting_bid_volume as nat))
            + report_line("Resting ask volume   : "@, decimal(self.resting_ask_volume as nat))
            + report_line("Best bid             : "@, price_text(self.best_bid)) + report_line(
            "Best ask             : "@,
            price_text(self.best_ask),
        ) + report_line("Spread               : "@, spread_text(self.spread_cents))
            + report_line(
            "Notional traded      : "@,
            cents_text(self.notional_traded_cents as nat),
        ) + report_line("Average trade price  : "@, average)
            + "==================================\n"@
    }

    /// The average trade price with two decimals, rounded down to the cent; none
    /// while nothing traded.
    pub fn average_trade_price(&self) -> (res: Option<String>)
        ensures
            self.executed_volume == 0 ==> res is None,
            self.executed_volume > 0 ==> (res matches Some(s) && s@ == cents_text(
                self.average_cents()->0,
            )),
    {
        if self.executed_volume == 0 {
            return None;
        }
        Some(format_unsigned_cents(self.notional_traded_cents / self.executed_volume as u128))
    }

    /// The report printed by the `stats` command.
    pub fn format(&self) -> (out: String)
        requires
            self.spread_cents != Some(i64::MIN),
        ensures
            out@ == self.report(),
    {
        let avg_trade_price = match self.average_trade_price() {
            Some(text) => text,
            None => String::from_str("-"),
        };
        let submitted = decimal_string(self.submitted_orders as u128);
        let resting = decimal_string(self.resting_orders as u128);
        let total_trades = decimal_string(self.total_trades as u128);
        let executed = decimal_string(self.executed_volume as u128);
        let bid_volume = decimal_string(self.resting_bid_volume as u128);
        let ask_volume = decimal_string(self.resting_ask_volume as u128);
        let best_bid = format_price(self.best_bid);
        let best_ask = format_price(self.best_ask);
        let spread = format_spread(self.spread_cents);
        let notional = format_unsigned_cents(self.notional_traded_cents);
        let mut output = String::new();
        output.append("\n========== ENGINE STATS ==========");
        push_char(&mut output, '\n');
        push_line(&mut output, "Submitted orders     : ", submitted.as_str());
        push_line(&mut output, "Resting orders       : ", resting.as_str());
        push_line(&mut output, "Total trades         : ", total_trades.as_str());
        push_line(&mut output, "Executed volume      : ", executed.as_str());
        push_line(&mut output, "Resting bid volume   : ", bid_volume.as_str());
        push_line(&mut output, "Resting ask volume   : ", ask_volume.as_str());
        push_line(&mut output, "Best bid             : ", best_bid.as_str());
        push_line(&mut output, "Best ask             : ", best_ask.as_str());
        push_line(&mut output, "Spread               : ", spread.as_str());
        push_line(&mut output, "Notional traded      : ", notional.as_str());
        push_line(&mut output, "Average trade price  : ", avg_trade_price.as_str());
        output.append("==================================\n");
        assert(output@ == self.report());
        output
    }
}

/// Appends one line of the report.
fn push_line(output: &mut String, label: &str, value: &str)
    ensures
        final(output)@ == old(output)@ + report_line(label@, value@),
{
    output.append(label);
    output.append(value);
    push_char(output, '\n');
    assert(final(output)@ =~= old(output)@ + report_line(label@, value@));
}

fn format_price(price: Option<Price>) -> (s: String)
    ensures
        s@ == price_text(price),
{
    match price {
        Some(p) => p.to_string(),
        None => String::from_str("-"),
    }
}

fn format_spread(spread_cents: Option<i64>) -> (s: String)
    requires
        spread_cents != Some(i64::MIN),
    ensures
        s@ == spread_text(spread_cents),
{
    match spread_cents {
        Some(value) => format_signed_cents(value),
        None => String::from_str("-"),
    }
}

fn format_signed_cents(cents: i64) -> (s: String)
    requires
        cents != i64::MIN,
    ensures
        s@ == signed_cents_text(cents as int),
        cents >= 0 ==> s@ == cents_text(cents as nat),
        cents < 0 ==> s@ == seq!['-'] + cents_text((-cents) as nat),
{
    let mut s = String::new();
    if cents < 0 {
        push_char(&mut s, '-');
        let absolute = -cents;
        push_cents(&mut s, absolute as u128);
    } else {
        push_cents(&mut s, cents as u128);
    }
    s
}

fn format_unsigned_cents(cents: u128) -> (s: String)
    ensures
        s@ == cents_text(cents as nat),
{
    let mut s = String::new();
    push_cents(&mut s, cents);
    s
}

} // verus!
