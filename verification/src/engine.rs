use std::collections::HashMap;

use vstd::prelude::*;

use crate::matching::{
    cross_ok, crosses, lemma_add_locations, lemma_fill_at_cross_asks, lemma_fill_at_cross_bids,
    lemma_fill_at_locations, lemma_fill_at_side_ok, lemma_match_keeps, lemma_match_stops,
    lemma_match_time_ordered, lemma_rest_above_bids, lemma_rest_below_asks,
    lemma_time_ordered_add, lemma_time_ordered_fill, lemma_time_ordered_remove,
    lemma_time_ordered_shrink, match_orders, opposite, side_ok, time_ordered,
};
use crate::order::Order;
use crate::order_book::{
    best_index, cents_of, fill_at, lemma_insert_at_level_end, lemma_level_end, lemma_level_start,
    lemma_position_of, lemma_remove_wf, level_end, open_volume, position_of, BookView, OrderBook,
};
use crate::text::{decimal, push_decimal};
use crate::stats::EngineStats;
use crate::trade::{lemma_trade_totals_prefix, notional_value, traded_volume, Trade};
use crate::types::{OrderId, Price, Quantity, Side};

verus! {

broadcast use vstd::std_specs::hash::group_hash_axioms;

/// What an accepted order got: its id, the trades it made, and what is left open of it.
#[derive(Debug, Clone, PartialEq, Eq)]
pub struct OrderResponse {
    pub order_id: OrderId,
    pub trades: Vec<Trade>,
    pub remaining: Quantity,
}

/// What a modification got: the trades the modified order made, what is left open of
/// it, and whether it lost its place in the queue.
#[derive(Debug, Clone, PartialEq, Eq)]
pub struct ModifyOrderResponse {
    pub order_id: OrderId,
    pub trades: Vec<Trade>,
    pub remaining: Quantity,
    pub reprioritized: bool,
}

/// A matching engine: the book, the id and sequence counters, the trade log, and an
/// index from each resting order's id to its side and price level, so that a
/// cancellation or modification goes straight to the right level.
#[derive(Debug)]
pub struct MatchingEngine {
    book: OrderBook,
    next_order_id: OrderId,
    next_sequence: u64,
    trade_log: Vec<Trade>,
    index: HashMap<OrderId, (Side, Price)>,
}

/// The state of an engine: its book, the next order id and sequence number it hands
/// out, and every trade so far.
pub struct EngineView {
    pub book: BookView,
    pub next_order_id: OrderId,
    pub next_sequence: u64,
    pub trades: Seq<Trade>,
}

impl View for MatchingEngine {
    type V = EngineView;

    closed spec fn view(&self) -> EngineView {
        EngineView {
            book: self.book@,
            next_order_id: self.next_order_id,
            next_sequence: self.next_sequence,
            trades: self.trade_log@,
        }
    }
}

impl EngineView {
    /// A live engine: a well-formed book of open orders with distinct ids that were
    /// all handed out, never crossed (every bid below every ask), each price level in
    /// time priority (arrival order, by sequence numbers all handed out).
    pub open spec fn wf(self) -> bool {
        &&& self.book.wf()
        &&& self.next_order_id >= 1
        &&& side_ok(self.book.bids, Side::Buy, self.next_order_id)
        &&& side_ok(self.book.asks, Side::Sell, self.next_order_id)
        &&& cross_ok(self.book.bids, self.book.asks)
        &&& time_ordered(self.book.bids, self.next_sequence as int)
        &&& time_ordered(self.book.asks, self.next_sequence as int)
    }

    /// The engine after an incoming order `id` on `side` for `quantity`, limited to
    /// `limit` (none for a market order), traded against the other side: the book it
    /// leaves, with a limit order's open rest joining its price level, the trades it
    /// made, and what is left open of it.
    pub open spec fn place(
        self,
        side: Side,
        quantity: Quantity,
        limit: Option<Price>,
        id: OrderId,
        sequence: u64,
    ) -> (BookView, Seq<Trade>, nat) {
        let (ts, rest, left) = match_orders(
            self.book.side(opposite(side)),
            side,
            limit,
            id,
            quantity as nat,
        );
        let book1 = self.book.with_side(opposite(side), rest);
        let book2 = match limit {
            Some(p) => if left > 0 {
                book1.add(
                    Order { id, side, price: p, quantity, remaining: left as u64, sequence },
                )
            } else {
                book1
            },
            None => book1,
        };
        (book2, ts, left)
    }

    /// The engine after `submit_limit_order(side, quantity, price)`: the order takes
    /// the next id and sequence number; a zero quantity changes nothing else, any other
    /// order is placed and its trades are logged.
    pub open spec fn after_limit(self, side: Side, quantity: Quantity, price: Price) -> EngineView {
        if quantity == 0 {
            EngineView {
                next_order_id: (self.next_order_id + 1) as u64,
                next_sequence: (self.next_sequence + 1) as u64,
                ..self
            }
        } else {
            let (book, ts, left) = self.place(
                side,
                quantity,
                Some(price),
                self.next_order_id,
                self.next_sequence,
            );
            EngineView {
                book,
                next_order_id: (self.next_order_id + 1) as u64,
                next_sequence: (self.next_sequence + 1) as u64,
                trades: self.trades + ts,
            }
        }
    }

    /// The engine after `cancel_order(id)`: the book without that order.
    pub open spec fn after_cancel(self, id: OrderId) -> EngineView {
        EngineView { book: self.book.cancel(id).0, ..self }
    }

    /// Whether modifying the resting order `id` to `quantity` at `price` takes it out
    /// and submits it again: it rests, the quantity is not zero, and the price changes
    /// or the quantity grows.
    pub open spec fn reprioritizes(self, id: OrderId, quantity: Quantity, price: Price) -> bool {
        match self.locate(id) {
            Some((side, k)) => {
                let o = self.book.side(side)[k];
                quantity > 0 && !(price == o.price && quantity <= o.remaining)
            },
            None => false,
        }
    }

    /// Where the resting order `id` is: its side and position.
    pub open spec fn locate(self, id: OrderId) -> Option<(Side, int)> {
        if position_of(self.book.bids, id) >= 0 {
            Some((Side::Buy, position_of(self.book.bids, id)))
        } else if position_of(self.book.asks, id) >= 0 {
            Some((Side::Sell, position_of(self.book.asks, id)))
        } else {
            None
        }
    }
}

impl MatchingEngine {
    /// The index holds exactly the resting orders, each with its side and price.
    pub closed spec fn index_ok(&self) -> bool {
        self.index@ == self.book@.locations()
    }

    pub open spec fn wf(&self) -> bool {
        self@.wf() && self.index_ok()
    }

    pub fn new() -> (e: Self)
        ensures
            e.wf(),
            e@.book.bids == Seq::<Order>::empty(),
            e@.book.asks == Seq::<Order>::empty(),
            e@.next_order_id == 1,
            e@.next_sequence == 1,
            e@.trades == Seq::<Trade>::empty(),
    {
        let e = Self {
            book: OrderBook::new(),
            next_order_id: 1,
            next_sequence: 1,
            trade_log: Vec::new(),
            index: HashMap::new(),
        };
        assert(e.book@.locations() =~= Map::empty());
        e
    }

    /// Submits a limit order: it trades with the other side by price-time priority
    /// at the resting orders' prices as long as they are at or better than `price`,
    /// and what is left open of it rests at `price`. The order takes the next id and
    /// sequence number, also when it is refused for a zero quantity.
    pub fn submit_limit_order(&mut self, side: Side, quantity: Quantity, price: Price) -> (res:
        Result<OrderResponse, String>)
        requires
            old(self).wf(),
            old(self)@.next_order_id < u64::MAX,
            old(self)@.next_sequence < u64::MAX,
        ensures
            final(self).wf(),
            final(self)@ == old(self)@.after_limit(side, quantity, price),
            final(self)@.next_order_id == old(self)@.next_order_id + 1,
            final(self)@.next_sequence == old(self)@.next_sequence + 1,
            quantity == 0 ==> (res matches Err(e) && e@ == "quantity must be greater than zero"@)
                && final(self)@.book == old(self)@.book && final(self)@.trades == old(
                self,
            )@.trades,
            quantity > 0 ==> ({
                let (book, ts, left) = old(self)@.place(
                    side,
                    quantity,
                    Some(price),
                    old(self)@.next_order_id,
                    old(self)@.next_sequence,
                );
                &&& res matches Ok(r) && r.order_id == old(self)@.next_order_id && r.trades@
                    == ts && r.remaining == left
                &&& final(self)@.book == book
                &&& final(self)@.trades == old(self)@.trades + ts
            }),
    {
        proof {
            lemma_fresh_id_absent(self@);
        }
        let order_id = self.next_order_id;
        self.next_order_id = self.next_order_id + 1;
        let sequence = self.next_sequence;
        self.next_sequence = self.next_sequence + 1;
        let incoming = match Order::new(order_id, side, price, quantity, sequence) {
            Ok(o) => o,
            Err(e) => return Err(e),
        };
        let (trades, remaining) = self.execute(
            incoming.id,
            incoming.side,
            incoming.quantity,
            incoming.sequence,
            Some(incoming.price),
        );
        Ok(OrderResponse { order_id, trades, remaining })
    }

    /// Submits a market order: it trades with the other side by price-time priority
    /// at any price, and nothing of it rests. A zero quantity is refused before the
    /// order takes an id.
    pub fn submit_market_order(&mut self, side: Side, quantity: Quantity) -> (res: Result<
        OrderResponse,
        String,
    >)
        requires
            old(self).wf(),
            quantity > 0 ==> old(self)@.next_order_id < u64::MAX,
            quantity > 0 ==> old(self)@.next_sequence < u64::MAX,
        ensures
            final(self).wf(),
            quantity == 0 ==> (res matches Err(e) && e@ == "quantity must be greater than zero"@)
                && final(self)@ == old(self)@,
            quantity > 0 ==> ({
                let (book, ts, left) = old(self)@.place(
                    side,
                    quantity,
                    None,
                    old(self)@.next_order_id,
                    old(self)@.next_sequence,
                );
                &&& res matches Ok(r) && r.order_id == old(self)@.next_order_id && r.trades@
                    == ts && r.remaining == left
                &&& final(self)@.book == book
                &&& final(self)@.trades == old(self)@.trades + ts
                &&& final(self)@.next_order_id == old(self)@.next_order_id + 1
                &&& final(self)@.next_sequence == old(self)@.next_sequence + 1
            }),
    {
        if quantity == 0 {
            return Err(String::from_str("quantity must be greater than zero"));
        }
        proof {
            lemma_fresh_id_absent(self@);
        }
        let order_id = self.next_order_id;
        self.next_order_id = self.next_order_id + 1;
        let sequence = self.next_sequence;
        self.next_sequence = self.next_sequence + 1;
        let (trades, remaining) = self.execute(order_id, side, quantity, sequence, None);
        Ok(OrderResponse { order_id, trades, remaining })
    }

    /// Trades an incoming order against the other side, rests a limit order's open
    /// rest at its limit, and logs the trades. The incoming id is not resting anywhere.
    fn execute(
        &mut self,
        id: OrderId,
        side: Side,
        quantity: Quantity,
        sequence: u64,
        limit: Option<Price>,
    ) -> (out: (Vec<Trade>, Quantity))
        requires
            old(self).wf(),
            id < old(self)@.next_order_id,
            old(self)@.locate(id) is None,
            sequence < old(self)@.next_sequence,
            time_ordered(old(self)@.book.bids, sequence as int),
            time_ordered(old(self)@.book.asks, sequence as int),
        ensures
            final(self).wf(),
            final(self)@.next_order_id == old(self)@.next_order_id,
            final(self)@.next_sequence == old(self)@.next_sequence,
            ({
                let (book, ts, left) = old(self)@.place(side, quantity, limit, id, sequence);
                &&& out.0@ == ts
                &&& out.1 == left
                &&& final(self)@.book == book
                &&& final(self)@.trades == old(self)@.trades + ts
            }),
    {
        let ghost pre = self@;
        let mut remaining = quantity;
        let trades = match side {
            Side::Buy => self.match_buy_order(id, &mut remaining, limit),
            Side::Sell => self.match_sell_order(id, &mut remaining, limit),
        };
        let ghost mid = self@;
        proof {
            lemma_incoming_absent(pre, id);
            lemma_match_keeps(
                pre.book.side(opposite(side)),
                pre.book.side(side),
                side,
                limit,
                id,
                quantity as nat,
                pre.next_order_id,
            );
            lemma_match_stops(pre.book.side(opposite(side)), side, limit, id, quantity as nat);
            lemma_match_absent(pre.book.side(opposite(side)), side, limit, id, quantity as nat);
            lemma_match_time_ordered(
                pre.book.side(opposite(side)),
                side,
                limit,
                id,
                quantity as nat,
                sequence as int,
            );
            assert(mid.wf());
        }
        match limit {
            Some(price) => {
                if remaining > 0 {
                    let resting = Order { id, side, price, quantity, remaining, sequence };
                    proof {
                        if side == Side::Buy {
                            lemma_rest_below_asks(mid.book.asks, price);
                        } else {
                            lemma_rest_above_bids(mid.book.bids, price);
                        }
                        lemma_rest_joins(mid, resting);
                        lemma_add_locations(mid.book, resting);
                    }
                    self.book.add_order(resting);
                    self.index.insert(id, (side, price));
                }
            },
            None => {},
        }
        self.log_trades(&trades);
        (trades, remaining)
    }

    fn log_trades(&mut self, trades: &Vec<Trade>)
        ensures
            final(self)@ == (EngineView { trades: old(self)@.trades + trades@, ..old(self)@ }),
            final(self).index@ == old(self).index@,
            final(self).book@ == old(self).book@,
    {
        let mut i: usize = 0;
        while i < trades.len()
            invariant
                0 <= i <= trades@.len(),
                self.index@ == old(self).index@,
                self.book@ == old(self).book@,
                self@ == (EngineView {
                    trades: old(self)@.trades + trades@.take(i as int),
                    ..old(self)@
                }),
            decreases trades@.len() - i,
        {
            self.trade_log.push(trades[i]);
            assert(trades@.take(i + 1) =~= trades@.take(i as int).push(trades@[i as int]));
            i = i + 1;
        }
        assert(trades@.take(trades@.len() as int) =~= trades@);
    }

    /// Trades an incoming buy against the asks: the lowest ask first, and within one
    /// price the oldest order first, while something of the buy is open and the ask
    /// is within `limit`.
    fn match_buy_order(&mut self, taker_id: OrderId, remaining: &mut Quantity, limit: Option<
        Price,
    >) -> (trades: Vec<Trade>)
        requires
            old(self).wf(),
        ensures
            final(self).wf(),
            ({
                let (ts, rest, left) = match_orders(
                    old(self)@.book.asks,
                    Side::Buy,
                    limit,
                    taker_id,
                    *old(remaining) as nat,
                );
                &&& trades@ == ts
                &&& final(self)@.book.asks == rest
                &&& *final(remaining) == left
            }),
            final(self)@.book.bids == old(self)@.book.bids,
            final(self)@.next_order_id == old(self)@.next_order_id,
            final(self)@.next_sequence == old(self)@.next_sequence,
            final(self)@.trades == old(self)@.trades,
    {
        let ghost goal = match_orders(
            old(self)@.book.asks,
            Side::Buy,
            limit,
            taker_id,
            *old(remaining) as nat,
        );
        let mut trades: Vec<Trade> = Vec::new();
        loop
            invariant
                self.wf(),
                self@.book.bids == old(self)@.book.bids,
                self@.next_order_id == old(self)@.next_order_id,
                self@.next_sequence == old(self)@.next_sequence,
                self@.trades == old(self)@.trades,
                ({
                    let (ts, rest, left) = match_orders(
                        self@.book.asks,
                        Side::Buy,
                        limit,
                        taker_id,
                        *remaining as nat,
                    );
                    goal == (trades@ + ts, rest, left)
                }),
            ensures
                self.wf(),
                self@.book.bids == old(self)@.book.bids,
                self@.next_order_id == old(self)@.next_order_id,
                self@.next_sequence == old(self)@.next_sequence,
                self@.trades == old(self)@.trades,
                goal == (trades@, self@.book.asks, *remaining as nat),
            decreases self@.book.asks.len() + *remaining,
        {
            if *remaining == 0 {
                assert(trades@ + Seq::<Trade>::empty() =~= trades@);
                break ;
            }
            let best_ask_price = match self.book.best_ask() {
                Some(p) => p,
                None => {
                    assert(trades@ + Seq::<Trade>::empty() =~= trades@);
                    break ;
                },
            };
            let beyond = match limit {
                Some(p) => best_ask_price.cents() > p.cents(),
                None => false,
            };
            if beyond {
                assert(trades@ + Seq::<Trade>::empty() =~= trades@);
                break ;
            }
            let k = self.book.best_position(Side::Sell);
            let maker = self.book.order_at(Side::Sell, k);
            let quantity = if *remaining < maker.remaining {
                *remaining
            } else {
                maker.remaining
            };
            let ghost before = trades@;
            let ghost asks = self@.book.asks;
            let trade = Trade {
                maker_order_id: maker.id,
                taker_order_id: taker_id,
                price: maker.price,
                quantity,
            };
            trades.push(trade);
            *remaining = *remaining - quantity;
            proof {
                let pre = self@;
                lemma_fill_at_side_ok(pre.book.asks, Side::Sell, pre.next_order_id, k as int, quantity as nat);
                lemma_fill_at_cross_asks(pre.book.bids, pre.book.asks, k as int, quantity as nat);
                lemma_fill_at_locations(pre.book, Side::Sell, k as int, quantity as nat);
            }
            self.book.fill(Side::Sell, k, quantity);
            if quantity == maker.remaining {
                self.index.remove(&maker.id);
            }
            proof {
                if quantity == maker.remaining {
                    assert(fill_at(asks, k as int, quantity as nat) == asks.remove(k as int));
                    let (ts, rest, left) = match_orders(
                        self@.book.asks,
                        Side::Buy,
                        limit,
                        taker_id,
                        *remaining as nat,
                    );
                    assert(before + (seq![trade] + ts) =~= trades@ + ts);
                } else {
                    assert(before + seq![trade] =~= trades@ + Seq::<Trade>::empty());
                }
            }
        }
        trades
    }

    /// Trades an incoming sell against the bids: the highest bid first, and within
    /// one price the oldest order first, while something of the sell is open and the
    /// bid is within `limit`.
    fn match_sell_order(&mut self, taker_id: OrderId, remaining: &mut Quantity, limit: Option<
        Price,
    >) -> (trades: Vec<Trade>)
        requires
            old(self).wf(),
        ensures
            final(self).wf(),
            ({
                let (ts, rest, left) = match_orders(
                    old(self)@.book.bids,
                    Side::Sell,
                    limit,
                    taker_id,
                    *old(remaining) as nat,
                );
                &&& trades@ == ts
                &&& final(self)@.book.bids == rest
                &&& *final(remaining) == left
            }),
            final(self)@.book.asks == old(self)@.book.asks,
            final(self)@.next_order_id == old(self)@.next_order_id,
            final(self)@.next_sequence == old(self)@.next_sequence,
            final(self)@.trades == old(self)@.trades,
    {
        let ghost goal = match_orders(
            old(self)@.book.bids,
            Side::Sell,
            limit,
            taker_id,
            *old(remaining) as nat,
        );
        let mut trades: Vec<Trade> = Vec::new();
        loop
            invariant
                self.wf(),
                self@.book.asks == old(self)@.book.asks,
                self@.next_order_id == old(self)@.next_order_id,
                self@.next_sequence == old(self)@.next_sequence,
                self@.trades == old(self)@.trades,
                ({
                    let (ts, rest, left) = match_orders(
                        self@.book.bids,
                        Side::Sell,
                        limit,
                        taker_id,
                        *remaining as nat,
                    );
                    goal == (trades@ + ts, rest, left)
                }),
            ensures
                self.wf(),
                self@.book.asks == old(self)@.book.asks,
                self@.next_order_id == old(self)@.next_order_id,
                self@.next_sequence == old(self)@.next_sequence,
                self@.trades == old(self)@.trades,
                goal == (trades@, self@.book.bids, *remaining as nat),
            decreases self@.book.bids.len() + *remaining,
        {
            if *remaining == 0 {
                assert(trades@ + Seq::<Trade>::empty() =~= trades@);
                break ;
            }
            let best_bid_price = match self.book.best_bid() {
                Some(p) => p,
                None => {
                    assert(trades@ + Seq::<Trade>::empty() =~= trades@);
                    break ;
                },
            };
            let beyond = match limit {
                Some(p) => best_bid_price.cents() < p.cents(),
                None => false,
            };
            proof {
                lemma_level_start(self@.book.bids, self@.book.bids.len() - 1);
            }
            if beyond {
                assert(trades@ + Seq::<Trade>::empty() =~= trades@);
                break ;
            }
            let k = self.book.best_position(Side::Buy);
            let maker = self.book.order_at(Side::Buy, k);
            let quantity = if *remaining < maker.remaining {
                *remaining
            } else {
                maker.remaining
            };
            let ghost before = trades@;
            let ghost bids = self@.book.bids;
            let trade = Trade {
                maker_order_id: maker.id,
                taker_order_id: taker_id,
                price: maker.price,
                quantity,
            };
            trades.push(trade);
            *remaining = *remaining - quantity;
            proof {
                let pre = self@;
                lemma_fill_at_side_ok(pre.book.bids, Side::Buy, pre.next_order_id, k as int, quantity as nat);
                lemma_fill_at_cross_bids(pre.book.bids, pre.book.asks, k as int, quantity as nat);
                lemma_fill_at_locations(pre.book, Side::Buy, k as int, quantity as nat);
            }
            self.book.fill(Side::Buy, k, quantity);
            if quantity == maker.remaining {
                self.index.remove(&maker.id);
            }
            proof {
                if quantity == maker.remaining {
                    assert(fill_at(bids, k as int, quantity as nat) == bids.remove(k as int));
                    let (ts, rest, left) = match_orders(
                        self@.book.bids,
                        Side::Sell,
                        limit,
                        taker_id,
                        *remaining as nat,
                    );
                    assert(before + (seq![trade] + ts) =~= trades@ + ts);
                } else {
                    assert(before + seq![trade] =~= trades@ + Seq::<Trade>::empty());
                }
            }
        }
        trades
    }

    /// Changes the open quantity and price of the resting order `order_id`. Lowering
    /// its quantity at an unchanged price keeps its place in the queue; any other
    /// change takes it out and submits it again under the same id with a new sequence
    /// number, so it may trade and loses its time priority.
    pub fn modify_order(&mut self, order_id: OrderId, quantity: Quantity, price: Price) -> (res:
        Result<ModifyOrderResponse, String>)
        requires
            old(self).wf(),
            old(self)@.reprioritizes(order_id, quantity, price) ==> old(self)@.next_sequence
                < u64::MAX,
        ensures
            final(self).wf(),
            final(self)@.next_order_id == old(self)@.next_order_id,
            old(self)@.locate(order_id) is None ==> (res matches Err(e) && e@ == "unknown order id "@
                + decimal(order_id as nat)) && final(self)@ == old(self)@,
            old(self)@.locate(order_id) matches Some((side, k)) ==> {
                let s = old(self)@.book.side(side);
                let o = s[k];
                if quantity == 0 {
                    (res matches Err(e) && e@ == "quantity must be greater than zero"@)
                        && final(self)@ == old(self)@
                } else if price == o.price && quantity <= o.remaining {
                    &&& res matches Ok(r) && r.order_id == order_id && r.trades@.len() == 0
                        && r.remaining == quantity && !r.reprioritized
                    &&& final(self)@.book == old(self)@.book.with_side(
                        side,
                        s.update(k, o.with_remaining(quantity)),
                    )
                    &&& final(self)@.next_sequence == old(self)@.next_sequence
                    &&& final(self)@.trades == old(self)@.trades
                } else {
                    let taken = EngineView {
                        book: old(self)@.book.with_side(side, s.remove(k)),
                        ..old(self)@
                    };
                    let (book, ts, left) = taken.place(
                        side,
                        quantity,
                        Some(price),
                        order_id,
                        old(self)@.next_sequence,
                    );
                    &&& res matches Ok(r) && r.order_id == order_id && r.trades@ == ts
                        && r.remaining == left && r.reprioritized
                    &&& final(self)@.book == book
                    &&& final(self)@.next_sequence == old(self)@.next_sequence + 1
                    &&& final(self)@.trades == old(self)@.trades + ts
                }
            },
    {
        let ghost pre = self@;
        proof {
            lemma_position_of(pre.book.bids, order_id);
            lemma_position_of(pre.book.asks, order_id);
        }
        let (side, k) = match self.locate(order_id) {
            Some(found) => found,
            None => {
                let mut message = String::from_str("unknown order id ");
                push_decimal(&mut message, order_id as u128);
                return Err(message);
            },
        };
        if quantity == 0 {
            return Err(String::from_str("quantity must be greater than zero"));
        }
        let current = self.book.order_at(side, k);
        if price == current.price && quantity <= current.remaining {
            proof {
                lemma_shrink_keeps(pre, side, k as int, quantity);
                let s = pre.book.side(side);
                if quantity < current.remaining {
                    let q = (current.remaining - quantity) as nat;
                    assert(fill_at(s, k as int, q) == s.update(
                        k as int,
                        s[k as int].with_remaining(quantity),
                    ));
                    lemma_fill_at_locations(pre.book, side, k as int, q);
                } else {
                    assert(s.update(k as int, s[k as int].with_remaining(quantity)) =~= s);
                    assert(pre.book.with_side(side, s) == pre.book);
                }
            }
            self.book.set_remaining(side, k, quantity);
            return Ok(ModifyOrderResponse {
                order_id,
                trades: Vec::new(),
                remaining: quantity,
                reprioritized: false,
            });
        }
        proof {
            if side == Side::Buy {
                lemma_remove_keeps_bids(pre, k as int);
            } else {
                lemma_remove_keeps_asks(pre, k as int);
            }
            lemma_removed_absent(pre, side, k as int);
            let s = pre.book.side(side);
            assert(fill_at(s, k as int, s[k as int].remaining as nat) == s.remove(k as int));
            lemma_fill_at_locations(pre.book, side, k as int, s[k as int].remaining as nat);
        }
        self.book.remove_at(side, k);
        self.index.remove(&order_id);
        let sequence = self.next_sequence;
        self.next_sequence = self.next_sequence + 1;
        let (trades, remaining) = self.execute(order_id, side, quantity, sequence, Some(price));
        Ok(ModifyOrderResponse { order_id, trades, remaining, reprioritized: true })
    }

    /// The side and position of the resting order `order_id`: the index gives its
    /// side and price level, and the search goes straight there.
    fn locate(&self, order_id: OrderId) -> (res: Option<(Side, usize)>)
        requires
            self.wf(),
        ensures
            res matches Some((side, k)) ==> self@.locate(order_id) == Some((side, k as int)),
            res is None ==> self@.locate(order_id) is None,
    {
        proof {
            lemma_position_of(self@.book.bids, order_id);
            lemma_position_of(self@.book.asks, order_id);
        }
        let (side, price) = match self.index.get(&order_id) {
            Some(location) => *location,
            None => return None,
        };
        let k = self.book.position_at_level(side, price, order_id);
        Some((side, k))
    }

    /// A snapshot of the engine's counters and book.
    pub fn stats(&self) -> (st: EngineStats)
        requires
            self.wf(),
            traded_volume(self@.trades) <= u64::MAX,
            notional_value(self@.trades) <= u128::MAX,
            open_volume(self@.book.bids) <= u64::MAX,
            open_volume(self@.book.asks) <= u64::MAX,
            self@.book.bids.len() + self@.book.asks.len() <= usize::MAX,
        ensures
            st.submitted_orders == self@.next_order_id - 1,
            st.resting_orders == self@.book.bids.len() + self@.book.asks.len(),
            st.total_trades == self@.trades.len(),
            st.executed_volume == traded_volume(self@.trades),
            st.resting_bid_volume == open_volume(self@.book.bids),
            st.resting_ask_volume == open_volume(self@.book.asks),
            st.best_bid == self@.book.best_bid(),
            st.best_ask == self@.book.best_ask(),
            st.spread_cents is Some == self@.book.spread() is Some,
            st.spread_cents matches Some(d) ==> d == self@.book.spread()->0,
            st.notional_traded_cents == notional_value(self@.trades),
    {
        let mut executed_volume: Quantity = 0;
        let mut notional_traded_cents: u128 = 0;
        let mut i: usize = 0;
        while i < self.trade_log.len()
            invariant
                0 <= i <= self@.trades.len(),
                traded_volume(self@.trades) <= u64::MAX,
                notional_value(self@.trades) <= u128::MAX,
                executed_volume == traded_volume(self@.trades.take(i as int)),
                notional_traded_cents == notional_value(self@.trades.take(i as int)),
            decreases self@.trades.len() - i,
        {
            let trade = self.trade_log[i];
            let cents = trade.price.cents();
            proof {
                let t = self@.trades;
                assert(t.take(i + 1).drop_last() =~= t.take(i as int));
                lemma_trade_totals_prefix(t, i + 1);
                assert(trade.quantity as nat * trade.price.view_cents() as nat <= u64::MAX as nat
                    * i64::MAX as nat) by (nonlinear_arith)
                    requires
                        trade.quantity <= u64::MAX,
                        0 < trade.price.view_cents() <= i64::MAX,
                ;
            }
            executed_volume = executed_volume + trade.quantity;
            notional_traded_cents = notional_traded_cents + trade.quantity as u128
                * cents as u128;
            i = i + 1;
        }
        proof {
            assert(self@.trades.take(self@.trades.len() as int) =~= self@.trades);
        }
        EngineStats {
            submitted_orders: self.next_order_id - 1,
            resting_orders: self.book.total_orders(),
            total_trades: self.trade_log.len(),
            executed_volume,
            resting_bid_volume: self.book.total_volume(Side::Buy),
            resting_ask_volume: self.book.total_volume(Side::Sell),
            best_bid: self.book.best_bid(),
            best_ask: self.book.best_ask(),
            spread_cents: self.book.spread(),
            notional_traded_cents,
        }
    }

    /// Whether another order can still take an id and a sequence number.
    pub fn has_ids_left(&self) -> (b: bool)
        ensures
            b == (self@.next_order_id < u64::MAX && self@.next_sequence < u64::MAX),
    {
        self.next_order_id < u64::MAX && self.next_sequence < u64::MAX
    }

    /// Whether `stats` can count everything: the traded volume and the open volume of
    /// each side fit in a `u64`, the traded value in a `u128`, the order count in a
    /// `usize`.
    pub fn stats_in_range(&self) -> (b: bool)
        ensures
            b == (traded_volume(self@.trades) <= u64::MAX && notional_value(self@.trades)
                <= u128::MAX && open_volume(self@.book.bids) <= u64::MAX && open_volume(
                self@.book.asks,
            ) <= u64::MAX && self@.book.bids.len() + self@.book.asks.len() <= usize::MAX),
    {
        let mut volume: u64 = 0;
        let mut notional: u128 = 0;
        let mut i: usize = 0;
        while i < self.trade_log.len()
            invariant
                0 <= i <= self@.trades.len(),
                volume == traded_volume(self@.trades.take(i as int)),
                notional == notional_value(self@.trades.take(i as int)),
            decreases self@.trades.len() - i,
        {
            let trade = self.trade_log[i];
            let cents = trade.price.cents();
            proof {
                let t = self@.trades;
                assert(t.take(i + 1).drop_last() =~= t.take(i as int));
                lemma_trade_totals_prefix(t, i + 1);
                assert(trade.quantity as nat * trade.price.view_cents() as nat <= u64::MAX as nat
                    * i64::MAX as nat) by (nonlinear_arith)
                    requires
                        trade.quantity <= u64::MAX,
                        0 < trade.price.view_cents() <= i64::MAX,
                ;
            }
            let value = trade.quantity as u128 * cents as u128;
            match (volume.checked_add(trade.quantity), notional.checked_add(value)) {
                (Some(v), Some(n)) => {
                    volume = v;
                    notional = n;
                },
                _ => return false,
            }
            i = i + 1;
        }
        proof {
            assert(self@.trades.take(self@.trades.len() as int) =~= self@.trades);
        }
        self.book.volume_in_range(Side::Buy) && self.book.volume_in_range(Side::Sell)
            && self.book.side_len(Side::Buy).checked_add(self.book.side_len(Side::Sell)).is_some()
    }

    /// Cancels the resting order `order_id` and hands it back; `None` when no such
    /// order rests (never was, was filled, or was cancelled already).
    pub fn cancel_order(&mut self, order_id: OrderId) -> (res: Option<Order>)
        requires
            old(self).wf(),
        ensures
            final(self).wf(),
            (final(self)@.book, res) == old(self)@.book.cancel(order_id),
            final(self)@ == old(self)@.after_cancel(order_id),
            final(self)@.next_order_id == old(self)@.next_order_id,
            final(self)@.next_sequence == old(self)@.next_sequence,
            final(self)@.trades == old(self)@.trades,
            final(self)@.locate(order_id) is None,
    {
        let ghost pre = self@;
        proof {
            lemma_position_of(pre.book.bids, order_id);
            lemma_position_of(pre.book.asks, order_id);
            lemma_cancelled_absent(pre, order_id);
        }
        let (side, k) = match self.locate(order_id) {
            Some(found) => found,
            None => return None,
        };
        proof {
            let s = pre.book.side(side);
            assert(fill_at(s, k as int, s[k as int].remaining as nat) == s.remove(k as int));
            lemma_fill_at_locations(pre.book, side, k as int, s[k as int].remaining as nat);
            if side == Side::Buy {
                lemma_remove_keeps_bids(pre, k as int);
            } else {
                lemma_remove_keeps_asks(pre, k as int);
            }
        }
        let order = self.book.remove_at(side, k);
        self.index.remove(&order_id);
        Some(order)
    }

    pub fn book(&self) -> (b: &OrderBook)
        ensures
            b@ == self@.book,
            b.wf() == self@.book.wf(),
    {
        &self.book
    }

    pub fn trades(&self) -> (t: &[Trade])
        ensures
            t@ == self@.trades,
    {
        self.trade_log.as_slice()
    }
}

/// Removing a bid keeps an engine live.
proof fn lemma_remove_keeps_bids(e: EngineView, k: int)
    requires
        e.wf(),
        0 <= k < e.book.bids.len(),
    ensures
        (EngineView { book: BookView { bids: e.book.bids.remove(k), asks: e.book.asks }, ..e }).wf(),
{
    let s = e.book.bids;
    lemma_remove_wf(s, Side::Buy, k);
    let r = s.remove(k);
    assert(r == fill_at(s, k, s[k].remaining as nat));
    crate::matching::lemma_fill_at_side_ok(s, Side::Buy, e.next_order_id, k, s[k].remaining as nat);
    crate::matching::lemma_fill_at_cross_bids(s, e.book.asks, k, s[k].remaining as nat);
    lemma_time_ordered_remove(s, e.next_sequence as int, k);
}

/// Removing an ask keeps an engine live.
proof fn lemma_remove_keeps_asks(e: EngineView, k: int)
    requires
        e.wf(),
        0 <= k < e.book.asks.len(),
    ensures
        (EngineView { book: BookView { bids: e.book.bids, asks: e.book.asks.remove(k) }, ..e }).wf(),
{
    let s = e.book.asks;
    lemma_remove_wf(s, Side::Sell, k);
    assert(s.remove(k) == fill_at(s, k, s[k].remaining as nat));
    crate::matching::lemma_fill_at_side_ok(s, Side::Sell, e.next_order_id, k, s[k].remaining as nat);
    crate::matching::lemma_fill_at_cross_asks(e.book.bids, s, k, s[k].remaining as nat);
    lemma_time_ordered_remove(s, e.next_sequence as int, k);
}

/// In a live engine an order id rests at most once, so once it is taken out it is
/// nowhere in the book.
proof fn lemma_cancelled_absent(e: EngineView, id: OrderId)
    requires
        e.wf(),
    ensures
        ({
            let (b, r) = e.book.cancel(id);
            position_of(b.bids, id) < 0 && position_of(b.asks, id) < 0
        }),
{
    let (b, r) = e.book.cancel(id);
    lemma_position_of(e.book.bids, id);
    lemma_position_of(e.book.asks, id);
    lemma_position_of(b.bids, id);
    lemma_position_of(b.asks, id);
    let kb = position_of(e.book.bids, id);
    let ka = position_of(e.book.asks, id);
    if position_of(b.bids, id) >= 0 {
        let j = position_of(b.bids, id);
        if kb >= 0 {
            let j2 = if j < kb { j } else { j + 1 };
            assert(b.bids[j] == e.book.bids[j2]);
        } else {
            assert(b.bids[j] == e.book.bids[j]);
        }
    }
    if position_of(b.asks, id) >= 0 {
        let j = position_of(b.asks, id);
        if kb >= 0 {
            assert(b.asks[j] == e.book.asks[j]);
            assert(e.book.bids[kb].id != e.book.asks[j].id);
        } else if ka >= 0 {
            let j2 = if j < ka { j } else { j + 1 };
            assert(b.asks[j] == e.book.asks[j2]);
        } else {
            assert(b.asks[j] == e.book.asks[j]);
        }
    }
}

/// Lowering the open quantity of a resting order keeps an engine live.
proof fn lemma_shrink_keeps(e: EngineView, side: Side, k: int, r: Quantity)
    requires
        e.wf(),
        0 <= k < e.book.side(side).len(),
        0 < r,
    ensures
        (EngineView {
            book: e.book.with_side(
                side,
                e.book.side(side).update(k, e.book.side(side)[k].with_remaining(r)),
            ),
            ..e
        }).wf(),
{
    let s = e.book.side(side);
    let u = s.update(k, s[k].with_remaining(r));
    lemma_time_ordered_shrink(s, e.next_sequence as int, k, r);
    assert forall|i: int, j: int| 0 <= i <= j < u.len() implies cents_of(u[i]) <= cents_of(
        u[j]) by {
        assert(cents_of(u[i]) == cents_of(s[i]));
        assert(cents_of(u[j]) == cents_of(s[j]));
    }
    assert forall|i: int| 0 <= i < u.len() implies (#[trigger] u[i]).side == side && u[i].remaining
        > 0 && u[i].id < e.next_order_id by {
        assert(u[i].side == s[i].side);
    }
    assert forall|i: int, j: int| 0 <= i < j < u.len() implies (#[trigger] u[i]).id != (
    #[trigger] u[j]).id by {
        assert(u[i].id == s[i].id);
        assert(u[j].id == s[j].id);
    }
    if side == Side::Buy {
        let a = e.book.asks;
        assert forall|i: int, j: int| 0 <= i < u.len() && 0 <= j < a.len() implies (
        #[trigger] u[i]).id != (#[trigger] a[j]).id && cents_of(u[i]) < cents_of(a[j]) by {
            assert(u[i].id == s[i].id);
        }
    } else {
        let b = e.book.bids;
        assert forall|i: int, j: int| 0 <= i < b.len() && 0 <= j < u.len() implies (
        #[trigger] b[i]).id != (#[trigger] u[j]).id && cents_of(b[i]) < cents_of(u[j]) by {
            assert(u[j].id == s[j].id);
        }
    }
}

/// Once the resting order at `k` is taken out, its id rests nowhere.
proof fn lemma_removed_absent(e: EngineView, side: Side, k: int)
    requires
        e.wf(),
        0 <= k < e.book.side(side).len(),
    ensures
        (EngineView {
            book: e.book.with_side(side, e.book.side(side).remove(k)),
            ..e
        }).locate(e.book.side(side)[k].id) is None,
{
    let id = e.book.side(side)[k].id;
    let b = e.book.with_side(side, e.book.side(side).remove(k));
    lemma_position_of(b.bids, id);
    lemma_position_of(b.asks, id);
    if position_of(b.bids, id) >= 0 {
        let j = position_of(b.bids, id);
        if side == Side::Buy {
            let j2 = if j < k { j } else { j + 1 };
            assert(b.bids[j] == e.book.bids[j2]);
        } else {
            assert(b.bids[j] == e.book.bids[j]);
            assert(e.book.bids[j].id != e.book.asks[k].id);
        }
    }
    if position_of(b.asks, id) >= 0 {
        let j = position_of(b.asks, id);
        if side == Side::Sell {
            let j2 = if j < k { j } else { j + 1 };
            assert(b.asks[j] == e.book.asks[j2]);
        } else {
            assert(b.asks[j] == e.book.asks[j]);
            assert(e.book.bids[k].id != e.book.asks[j].id);
        }
    }
}

/// The next id to be handed out rests nowhere in a live engine.
pub proof fn lemma_fresh_id_absent(e: EngineView)
    requires
        e.wf(),
    ensures
        e.locate(e.next_order_id) is None,
{
    lemma_position_of(e.book.bids, e.next_order_id);
    lemma_position_of(e.book.asks, e.next_order_id);
}

/// An id not resting on either side is on neither.
pub proof fn lemma_incoming_absent(e: EngineView, id: OrderId)
    requires
        e.locate(id) is None,
    ensures
        forall|j: int| 0 <= j < e.book.bids.len() ==> (#[trigger] e.book.bids[j]).id != id,
        forall|j: int| 0 <= j < e.book.asks.len() ==> (#[trigger] e.book.asks[j]).id != id,
{
    lemma_position_of(e.book.bids, id);
    lemma_position_of(e.book.asks, id);
}

/// Matching only takes orders away or shrinks them, so an id absent before is absent
/// after.
pub proof fn lemma_match_absent(
    resting: Seq<Order>,
    taker: Side,
    limit: Option<Price>,
    taker_id: OrderId,
    remaining: nat,
)
    requires
        forall|j: int| 0 <= j < resting.len() ==> (#[trigger] resting[j]).id != taker_id,
    ensures
        ({
            let (ts, rest, left) = match_orders(resting, taker, limit, taker_id, remaining);
            forall|j: int| 0 <= j < rest.len() ==> (#[trigger] rest[j]).id != taker_id
        }),
    decreases resting.len(),
{
    if remaining == 0 || resting.len() == 0 {
    } else {
        let k = best_index(resting, opposite(taker));
        crate::matching::lemma_best_index_range(resting, opposite(taker));
        let m = resting[k];
        if crosses(taker, limit, m.price) {
            let q = crate::matching::min_nat(remaining, m.remaining as nat);
            let r = fill_at(resting, k, q);
            assert forall|j: int| 0 <= j < r.len() implies (#[trigger] r[j]).id != taker_id by {
                crate::matching::lemma_fill_source(resting, k, q, j);
            }
            if q == m.remaining {
                lemma_match_absent(
                    resting.remove(k),
                    taker,
                    limit,
                    taker_id,
                    (remaining - q) as nat,
                );
            }
        }
    }
}

/// After matching, the open rest of a limit order joins its own side without
/// breaking what a live engine keeps.
proof fn lemma_rest_joins(mid: EngineView, o: Order)
    requires
        mid.book.wf(),
        mid.next_order_id >= 1,
        side_ok(mid.book.bids, Side::Buy, mid.next_order_id),
        side_ok(mid.book.asks, Side::Sell, mid.next_order_id),
        cross_ok(mid.book.bids, mid.book.asks),
        o.remaining > 0,
        o.id < mid.next_order_id,
        forall|j: int| 0 <= j < mid.book.bids.len() ==> (#[trigger] mid.book.bids[j]).id != o.id,
        forall|j: int| 0 <= j < mid.book.asks.len() ==> (#[trigger] mid.book.asks[j]).id != o.id,
        o.side == Side::Buy ==> forall|j: int|
            0 <= j < mid.book.asks.len() ==> cents_of(o) < cents_of(#[trigger] mid.book.asks[j]),
        o.side == Side::Sell ==> forall|j: int|
            0 <= j < mid.book.bids.len() ==> cents_of(#[trigger] mid.book.bids[j]) < cents_of(o),
        o.sequence < mid.next_sequence,
        time_ordered(mid.book.bids, o.sequence as int),
        time_ordered(mid.book.asks, o.sequence as int),
    ensures
        (EngineView { book: mid.book.add(o), ..mid }).wf(),
{
    let s = mid.book.side(o.side);
    lemma_time_ordered_add(s, o);
    let k = level_end(s, cents_of(o));
    lemma_level_end(s, cents_of(o));
    lemma_insert_at_level_end(s, o.side, o);
    let r = s.insert(k, o);
    assert forall|i: int| 0 <= i < r.len() implies (#[trigger] r[i]).remaining > 0 && r[i].id
        < mid.next_order_id by {
        if i < k {
            assert(r[i] == s[i]);
        } else if i > k {
            assert(r[i] == s[i - 1]);
        }
    }
    assert forall|i: int, j: int| 0 <= i < j < r.len() implies (#[trigger] r[i]).id != (
    #[trigger] r[j]).id by {
        if i < k {
            assert(r[i] == s[i]);
        } else if i > k {
            assert(r[i] == s[i - 1]);
        }
        if j < k {
            assert(r[j] == s[j]);
        } else if j > k {
            assert(r[j] == s[j - 1]);
        }
    }
    if o.side == Side::Buy {
        let a = mid.book.asks;
        assert forall|i: int, j: int| 0 <= i < r.len() && 0 <= j < a.len() implies (
        #[trigger] r[i]).id != (#[trigger] a[j]).id && cents_of(r[i]) < cents_of(a[j]) by {
            if i < k {
                assert(r[i] == s[i]);
            } else if i > k {
                assert(r[i] == s[i - 1]);
            }
        }
    } else {
        let b = mid.book.bids;
        assert forall|i: int, j: int| 0 <= i < b.len() && 0 <= j < r.len() implies (
        #[trigger] b[i]).id != (#[trigger] r[j]).id && cents_of(b[i]) < cents_of(r[j]) by {
            if j < k {
                assert(r[j] == s[j]);
            } else if j > k {
                assert(r[j] == s[j - 1]);
            }
        }
    }
}

} // verus!
