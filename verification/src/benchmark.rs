use vstd::prelude::*;

use crate::engine::{EngineView, MatchingEngine};
use crate::types::{lemma_price_of_cents, price_of_cents, Price, Quantity, Side};

verus! {

/// The `index`-th generated benchmark order: its side (sells at even indexes), its
/// quantity (1 to 10, cycling) and its price in cents (sells from 100.00, buys from
/// 100.50, a cent more per index over a cycle of a hundred).
pub open spec fn benchmark_order(index: nat) -> (Side, Quantity, int) {
    let side = if index % 2 == 0 {
        Side::Sell
    } else {
        Side::Buy
    };
    let base: int = match side {
        Side::Sell => 10_000,
        Side::Buy => 10_050,
    };
    (side, (index % 10 + 1) as u64, base + (index % 100) as int)
}

/// The engine after the first `n` generated orders were submitted to `e` in turn.
pub open spec fn benchmark_state(e: EngineView, n: nat) -> EngineView
    decreases n,
{
    if n == 0 {
        e
    } else {
        let (side, quantity, cents) = benchmark_order((n - 1) as nat);
        benchmark_state(e, (n - 1) as nat).after_limit(side, quantity, price_of_cents(cents))
    }
}

/// The price of the `index`-th generated benchmark order: sells from 100.00 and buys
/// from 100.50, each stepping up a cent per order over a cycle of a hundred.
pub fn benchmark_price(index: usize, side: Side) -> (p: Price)
    ensures
        p.view_cents() == (match side {
            Side::Sell => 10_000int,
            Side::Buy => 10_050int,
        }) + (index % 100) as int,
{
    let offset = (index % 100) as i64;
    let cents = match side {
        Side::Sell => 10_000 + offset,
        Side::Buy => 10_050 + offset,
    };
    match Price::from_cents(cents) {
        Ok(price) => price,
        Err(_) => {
            assert(false);
            Price::from_cents(1).unwrap()
        },
    }
}

/// Submits the first `order_count` generated benchmark orders, in turn, as limit
/// orders. Every one of them is accepted.
pub fn run_benchmark_orders(engine: &mut MatchingEngine, order_count: usize)
    requires
        old(engine).wf(),
        old(engine)@.next_order_id + order_count <= u64::MAX,
        old(engine)@.next_sequence + order_count <= u64::MAX,
    ensures
        final(engine).wf(),
        final(engine)@ == benchmark_state(old(engine)@, order_count as nat),
        final(engine)@.next_order_id == old(engine)@.next_order_id + order_count,
        final(engine)@.next_sequence == old(engine)@.next_sequence + order_count,
{
    let mut index: usize = 0;
    while index < order_count
        invariant
            0 <= index <= order_count,
            engine.wf(),
            engine@ == benchmark_state(old(engine)@, index as nat),
            engine@.next_order_id == old(engine)@.next_order_id + index,
            engine@.next_sequence == old(engine)@.next_sequence + index,
            old(engine)@.next_order_id + order_count <= u64::MAX,
            old(engine)@.next_sequence + order_count <= u64::MAX,
        decreases order_count - index,
    {
        let side = if index % 2 == 0 {
            Side::Sell
        } else {
            Side::Buy
        };
        let quantity = (index % 10 + 1) as u64;
        let price = benchmark_price(index, side);
        let ghost (s, q, c) = benchmark_order(index as nat);
        proof {
            lemma_price_of_cents(price, c);
            assert(price == price_of_cents(c));
        }
        let accepted = engine.submit_limit_order(side, quantity, price);
        assert(accepted is Ok);
        index = index + 1;
    }
}

/// The generated benchmark orders alternate sides, a sell first; their quantities
/// run 1, 2, ..., 10 and start again; their prices step up a cent per order from
/// 100.00 for sells and from 100.50 for buys, over a cycle of a hundred orders.
pub proof fn law_benchmark_orders(index: nat)
    ensures
        benchmark_order(index).0 == Side::Sell <==> index % 2 == 0,
        benchmark_order(index).0 == Side::Buy <==> index % 2 == 1,
        benchmark_order(index).1 == index % 10 + 1,
        1 <= benchmark_order(index).1 <= 10,
        benchmark_order(index + 10).1 == benchmark_order(index).1,
        index % 2 == 0 ==> benchmark_order(index).2 == 10_000 + index % 100,
        index % 2 == 1 ==> benchmark_order(index).2 == 10_050 + index % 100,
        benchmark_order(index + 100).2 == benchmark_order(index).2,
{
    assert((index + 10) % 10 == index % 10);
    assert((index + 100) % 100 == index % 100);
    assert((index + 100) % 2 == index % 2);
}

} // verus!
