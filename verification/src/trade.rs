use vstd::prelude::*;

use crate::types::{OrderId, Price, Quantity};

verus! {

/// An execution between a resting (maker) order and an incoming (taker) order.
#[derive(Debug, Clone, Copy, PartialEq, Eq, Structural)]
pub struct Trade {
    pub maker_order_id: OrderId,
    pub taker_order_id: OrderId,
    pub price: Price,
    pub quantity: Quantity,
}

/// The total quantity of a sequence of trades.
pub open spec fn traded_volume(ts: Seq<Trade>) -> nat
    decreases ts.len(),
{
    if ts.len() == 0 {
        0
    } else {
        traded_volume(ts.drop_last()) + ts.last().quantity as nat
    }
}

/// The total value of a sequence of trades, in cents: quantity times price.
pub open spec fn notional_value(ts: Seq<Trade>) -> nat
    decreases ts.len(),
{
    if ts.len() == 0 {
        0
    } else {
        notional_value(ts.drop_last()) + ts.last().quantity as nat * ts.last().price.view_cents() as nat
    }
}

/// A prefix of the trades has no more volume and value than all of them.
pub proof fn lemma_trade_totals_prefix(ts: Seq<Trade>, n: int)
    requires
        0 <= n <= ts.len(),
    ensures
        traded_volume(ts.take(n)) <= traded_volume(ts),
        notional_value(ts.take(n)) <= notional_value(ts),
    decreases ts.len(),
{
    if n < ts.len() {
        assert(ts.drop_last().take(n) =~= ts.take(n));
        lemma_trade_totals_prefix(ts.drop_last(), n);
    } else {
        assert(ts.take(n) =~= ts);
    }
}

} // verus!
