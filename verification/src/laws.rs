use vstd::prelude::*;

use crate::engine::EngineView;
use crate::matching::{
    all_open, crosses, lemma_best_index_range, lemma_time_ordered_add, match_orders, min_nat,
    opposite, time_ordered,
};
use crate::order::Order;
use crate::order_book::{best_index, cents_of, lemma_level_start, open_volume, sorted_by_price};
use crate::text::{
    all_digits, decimal, digit_char, digits_value, is_digit, parse_int, trim, trim_end,
    trim_start, utf8_len, cents_text, signed_cents_text, two_digits,
};
use crate::trade::{notional_value, traded_volume, Trade};
use crate::types::{
    dot_count, first_dot, lemma_first_dot, pad_decimals, parsed_price, price_overflows, OrderId,
    Price, Quantity, Side,
};

verus! {

/// Trade volume read from the front: the first trade and then the rest.
proof fn lemma_traded_volume_cons(t: Trade, ts: Seq<Trade>)
    ensures
        traded_volume(seq![t] + ts) == t.quantity + traded_volume(ts),
    decreases ts.len(),
{
    let all = seq![t] + ts;
    if ts.len() == 0 {
        assert(all =~= seq![t]);
        assert(all.drop_last() =~= Seq::<Trade>::empty());
        assert(all.last() == t);
        assert(traded_volume(all) == traded_volume(all.drop_last()) + t.quantity);
        assert(traded_volume(Seq::<Trade>::empty()) == 0);
    } else {
        assert(all.drop_last() =~= seq![t] + ts.drop_last());
        assert(all.last() == ts.last());
        lemma_traded_volume_cons(t, ts.drop_last());
        assert(traded_volume(all) == traded_volume(all.drop_last()) + ts.last().quantity);
        assert(traded_volume(ts) == traded_volume(ts.drop_last()) + ts.last().quantity);
    }
}

/// Taking one order out lowers the open volume by its open quantity.
pub proof fn lemma_open_volume_remove(s: Seq<Order>, k: int)
    requires
        0 <= k < s.len(),
    ensures
        open_volume(s.remove(k)) + s[k].remaining == open_volume(s),
    decreases s.len(),
{
    if k == s.len() - 1 {
        assert(s.remove(k) =~= s.drop_last());
    } else {
        assert(s.remove(k).drop_last() =~= s.drop_last().remove(k));
        assert(s.remove(k).last() == s.last());
        lemma_open_volume_remove(s.drop_last(), k);
    }
}

/// Changing one order's open quantity changes the open volume by the difference.
pub proof fn lemma_open_volume_update(s: Seq<Order>, k: int, o: Order)
    requires
        0 <= k < s.len(),
    ensures
        open_volume(s.update(k, o)) + s[k].remaining == open_volume(s) + o.remaining,
    decreases s.len(),
{
    if k == s.len() - 1 {
        assert(s.update(k, o).drop_last() =~= s.drop_last());
    } else {
        assert(s.update(k, o).drop_last() =~= s.drop_last().update(k, o));
        lemma_open_volume_update(s.drop_last(), k, o);
    }
}

/// Matching accounts for every unit of the incoming order: what it traded plus what
/// is left open of it is what it asked for.
pub proof fn law_incoming_quantity_accounted(
    resting: Seq<Order>,
    taker: Side,
    limit: Option<Price>,
    taker_id: OrderId,
    remaining: nat,
)
    ensures
        ({
            let (ts, rest, left) = match_orders(resting, taker, limit, taker_id, remaining);
            traded_volume(ts) + left == remaining
        }),
    decreases resting.len(),
{
    if remaining == 0 || resting.len() == 0 {
    } else {
        let k = best_index(resting, opposite(taker));
        lemma_best_index_range(resting, opposite(taker));
        let m = resting[k];
        if crosses(taker, limit, m.price) {
            let q = min_nat(remaining, m.remaining as nat);
            let t = Trade {
                maker_order_id: m.id,
                taker_order_id: taker_id,
                price: m.price,
                quantity: q as u64,
            };
            if q == m.remaining {
                law_incoming_quantity_accounted(
                    resting.remove(k),
                    taker,
                    limit,
                    taker_id,
                    (remaining - q) as nat,
                );
                let (ts, rest, left) = match_orders(
                    resting.remove(k),
                    taker,
                    limit,
                    taker_id,
                    (remaining - q) as nat,
                );
                lemma_traded_volume_cons(t, ts);
            } else {
                lemma_traded_volume_cons(t, Seq::empty());
            }
        }
    }
}

/// Matching takes from the resting side exactly what it trades: the open volume
/// resting there drops by the traded volume.
pub proof fn law_resting_volume_accounted(
    resting: Seq<Order>,
    taker: Side,
    limit: Option<Price>,
    taker_id: OrderId,
    remaining: nat,
)
    ensures
        ({
            let (ts, rest, left) = match_orders(resting, taker, limit, taker_id, remaining);
            open_volume(rest) + traded_volume(ts) == open_volume(resting)
        }),
    decreases resting.len(),
{
    if remaining == 0 || resting.len() == 0 {
    } else {
        let k = best_index(resting, opposite(taker));
        lemma_best_index_range(resting, opposite(taker));
        let m = resting[k];
        if crosses(taker, limit, m.price) {
            let q = min_nat(remaining, m.remaining as nat);
            let t = Trade {
                maker_order_id: m.id,
                taker_order_id: taker_id,
                price: m.price,
                quantity: q as u64,
            };
            if q == m.remaining {
                lemma_open_volume_remove(resting, k);
                law_resting_volume_accounted(
                    resting.remove(k),
                    taker,
                    limit,
                    taker_id,
                    (remaining - q) as nat,
                );
                let (ts, rest, left) = match_orders(
                    resting.remove(k),
                    taker,
                    limit,
                    taker_id,
                    (remaining - q) as nat,
                );
                lemma_traded_volume_cons(t, ts);
            } else {
                lemma_open_volume_update(resting, k, m.with_remaining((m.remaining - q) as Quantity));
                lemma_traded_volume_cons(t, Seq::empty());
            }
        }
    }
}

/// Every trade respects the incoming order's limit, is made by the incoming order,
/// and, against a side of open orders, moves a positive quantity.
pub proof fn law_trades_respect_limit(
    resting: Seq<Order>,
    taker: Side,
    limit: Option<Price>,
    taker_id: OrderId,
    remaining: nat,
)
    requires
        all_open(resting),
    ensures
        ({
            let (ts, rest, left) = match_orders(resting, taker, limit, taker_id, remaining);
            forall|i: int|
                0 <= i < ts.len() ==> crosses(taker, limit, (#[trigger] ts[i]).price)
                    && ts[i].taker_order_id == taker_id && ts[i].quantity > 0
        }),
    decreases resting.len(),
{
    if remaining == 0 || resting.len() == 0 {
    } else {
        let k = best_index(resting, opposite(taker));
        lemma_best_index_range(resting, opposite(taker));
        let m = resting[k];
        if crosses(taker, limit, m.price) {
            let q = min_nat(remaining, m.remaining as nat);
            if q == m.remaining {
                let r = resting.remove(k);
                assert forall|i: int| 0 <= i < r.len() implies (#[trigger] r[i]).remaining > 0 by {
                    if i < k {
                        assert(r[i] == resting[i]);
                    } else {
                        assert(r[i] == resting[i + 1]);
                    }
                }
                law_trades_respect_limit(r, taker, limit, taker_id, (remaining - q) as nat);
                let (ts, rest, left) = match_orders(r, taker, limit, taker_id, (remaining - q) as nat);
                let t = Trade {
                    maker_order_id: m.id,
                    taker_order_id: taker_id,
                    price: m.price,
                    quantity: q as u64,
                };
                let all = seq![t] + ts;
                assert(resting[k].remaining > 0);
                assert forall|i: int| 0 <= i < all.len() implies crosses(
                    taker,
                    limit,
                    (#[trigger] all[i]).price,
                ) && all[i].taker_order_id == taker_id && all[i].quantity > 0 by {
                    if i > 0 {
                        assert(all[i] == ts[i - 1]);
                    }
                }
            } else {
                assert(resting[k].remaining > 0);
            }
        }
    }
}

/// The best price is the highest bid, or the lowest ask: no order of the side is
/// priced better than the one with priority.
pub proof fn lemma_best_is_best(s: Seq<Order>, side: Side)
    requires
        s.len() > 0,
        sorted_by_price(s),
    ensures
        0 <= best_index(s, side) < s.len(),
        side == Side::Sell ==> forall|j: int|
            0 <= j < s.len() ==> cents_of(s[best_index(s, side)]) <= cents_of(#[trigger] s[j]),
        side == Side::Buy ==> forall|j: int|
            0 <= j < s.len() ==> cents_of(#[trigger] s[j]) <= cents_of(s[best_index(s, side)]),
{
    lemma_best_index_range(s, side);
    if side == Side::Buy {
        lemma_level_start(s, s.len() - 1);
    }
}

/// Price priority: a buy trades at non-decreasing prices, from the lowest ask up; a
/// sell at non-increasing prices, from the highest bid down. The first trade is at
/// the best price of the side.
pub proof fn law_best_price_first(
    resting: Seq<Order>,
    taker: Side,
    limit: Option<Price>,
    taker_id: OrderId,
    remaining: nat,
)
    requires
        sorted_by_price(resting),
    ensures
        ({
            let (ts, rest, left) = match_orders(resting, taker, limit, taker_id, remaining);
            &&& taker == Side::Buy ==> forall|i: int, j: int|
                0 <= i <= j < ts.len() ==> (#[trigger] ts[i]).price.view_cents() <= (
                #[trigger] ts[j]).price.view_cents()
            &&& taker == Side::Sell ==> forall|i: int, j: int|
                0 <= i <= j < ts.len() ==> (#[trigger] ts[i]).price.view_cents() >= (
                #[trigger] ts[j]).price.view_cents()
            &&& ts.len() > 0 ==> ts[0].price == resting[best_index(resting, opposite(taker))].price
            &&& taker == Side::Buy ==> forall|i: int|
                0 <= i < ts.len() ==> (#[trigger] ts[i]).price.view_cents() >= cents_of(
                    resting[best_index(resting, Side::Sell)],
                )
            &&& taker == Side::Sell ==> forall|i: int|
                0 <= i < ts.len() ==> (#[trigger] ts[i]).price.view_cents() <= cents_of(
                    resting[best_index(resting, Side::Buy)],
                )
        }),
    decreases resting.len(),
{
    if remaining == 0 || resting.len() == 0 {
    } else {
        let k = best_index(resting, opposite(taker));
        lemma_best_is_best(resting, opposite(taker));
        let m = resting[k];
        if crosses(taker, limit, m.price) {
            let q = min_nat(remaining, m.remaining as nat);
            let t = Trade {
                maker_order_id: m.id,
                taker_order_id: taker_id,
                price: m.price,
                quantity: q as u64,
            };
            if q == m.remaining {
                let r = resting.remove(k);
                crate::order_book::lemma_sorted_remove(resting, k);
                law_best_price_first(r, taker, limit, taker_id, (remaining - q) as nat);
                let (ts, rest, left) = match_orders(r, taker, limit, taker_id, (remaining - q) as nat);
                let all = seq![t] + ts;
                if r.len() > 0 {
                    lemma_best_is_best(r, opposite(taker));
                    let k2 = best_index(r, opposite(taker));
                    let j2 = if k2 < k { k2 } else { k2 + 1 };
                    assert(r[k2] == resting[j2]);
                }
                assert forall|i: int| 0 < i < all.len() implies all[i] == ts[i - 1] by {}
                if taker == Side::Buy {
                    assert forall|i: int, j: int| 0 <= i <= j < all.len() implies (
                    #[trigger] all[i]).price.view_cents() <= (#[trigger] all[j]).price.view_cents() by {
                        if i > 0 {
                            assert(all[i] == ts[i - 1]);
                        }
                        if j > 0 {
                            assert(all[j] == ts[j - 1]);
                        }
                    }
                } else {
                    assert forall|i: int, j: int| 0 <= i <= j < all.len() implies (
                    #[trigger] all[i]).price.view_cents() >= (#[trigger] all[j]).price.view_cents() by {
                        if i > 0 {
                            assert(all[i] == ts[i - 1]);
                        }
                        if j > 0 {
                            assert(all[j] == ts[j - 1]);
                        }
                    }
                }
            }
        }
    }
}

/// A live engine's book is never crossed: the best bid is below the best ask, so the
/// spread is positive.
pub proof fn law_book_never_crossed(e: EngineView)
    requires
        e.wf(),
    ensures
        e.book.best_bid() matches Some(b) ==> e.book.best_ask() matches Some(a)
            ==> b.view_cents() < a.view_cents(),
        e.book.spread() matches Some(d) ==> d > 0,
{
    if e.book.bids.len() > 0 && e.book.asks.len() > 0 {
        assert(cents_of(e.book.bids[e.book.bids.len() - 1]) < cents_of(e.book.asks[0]));
    }
}

/// A market order never rests: the book keeps its side of the book as it was.
pub proof fn law_market_order_never_rests(
    e: EngineView,
    side: Side,
    quantity: Quantity,
    id: OrderId,
    sequence: u64,
)
    ensures
        e.place(side, quantity, None, id, sequence).0.side(side) == e.book.side(side),
{
}

proof fn lemma_digit_char(d: nat)
    requires
        d < 10,
    ensures
        digit_char(d) as nat == 48 + d,
        digit_char(d) as u32 == 48 + d,
        is_digit(digit_char(d)),
{
}

/// The digits of a decimal representation.
proof fn lemma_decimal_digits(n: nat)
    ensures
        decimal(n).len() > 0,
        all_digits(decimal(n)),
        digits_value(decimal(n)) == n,
    decreases n,
{
    if n >= 10 {
        lemma_decimal_digits(n / 10);
        lemma_digit_char(n % 10);
        let d = decimal(n / 10);
        let e = d.push(digit_char(n % 10));
        assert(e.drop_last() =~= d);
        assert(digits_value(e) == digits_value(d) * 10 + (n % 10));
        assert forall|i: int| 0 <= i < e.len() implies is_digit(#[trigger] e[i]) by {
            if i < d.len() {
                assert(e[i] == d[i]);
            }
        }
    } else {
        lemma_digit_char(n);
        assert(seq![digit_char(n)].drop_last() =~= Seq::<char>::empty());
        assert(digits_value(Seq::<char>::empty()) == 0);
    }
}

/// A string of digits holds no '.'.
proof fn lemma_digits_no_dot(s: Seq<char>)
    requires
        all_digits(s),
    ensures
        dot_count(s) == 0,
        forall|j: int| 0 <= j < s.len() ==> s[j] != '.',
    decreases s.len(),
{
    if s.len() > 0 {
        assert(is_digit(s[s.len() - 1]));
        let t = s.drop_last();
        assert forall|j: int| 0 <= j < t.len() implies is_digit(#[trigger] t[j]) by {
            assert(t[j] == s[j]);
        }
        lemma_digits_no_dot(t);
    }
    assert forall|j: int| 0 <= j < s.len() implies s[j] != '.' by {
        assert(is_digit(s[j]));
    }
}

proof fn lemma_dot_count_concat(a: Seq<char>, b: Seq<char>)
    ensures
        dot_count(a + b) == dot_count(a) + dot_count(b),
    decreases b.len(),
{
    if b.len() > 0 {
        assert((a + b).drop_last() =~= a + b.drop_last());
        assert((a + b).last() == b.last());
        lemma_dot_count_concat(a, b.drop_last());
    } else {
        assert(a + b =~= a);
    }
}

proof fn lemma_first_dot_at(s: Seq<char>, k: int)
    requires
        0 <= k < s.len(),
        s[k] == '.',
        forall|j: int| 0 <= j < k ==> s[j] != '.',
    ensures
        first_dot(s) == k,
{
    lemma_first_dot(s);
    if first_dot(s) < k {
        assert(s[first_dot(s)] == '.');
    }
}

proof fn lemma_two_digits(r: nat)
    requires
        r < 100,
    ensures
        parse_int(two_digits(r)) == Some(r as int),
        utf8_len(two_digits(r)) == 2,
        pad_decimals(two_digits(r)) == two_digits(r),
        all_digits(two_digits(r)),
{
    let t = two_digits(r);
    lemma_digit_char(r / 10);
    lemma_digit_char(r % 10);
    assert(utf8_len(Seq::<char>::empty()) == 0);
    assert(digits_value(Seq::<char>::empty()) == 0);
    assert(t.drop_last() =~= seq![digit_char(r / 10)]);
    assert(t.drop_last().drop_last() =~= Seq::<char>::empty());
    assert(is_digit(t[0]) && is_digit(t[1]));
    assert(all_digits(t));
    assert(digits_value(t.drop_last()) == digits_value(t.drop_last().drop_last()) * 10 + (r / 10));
    assert(digits_value(t) == digits_value(t.drop_last()) * 10 + (r % 10));
    assert(digits_value(t) == (r / 10) * 10 + r % 10);
    assert(utf8_len(t) == utf8_len(t.drop_last()) + 1);
}

/// Reading back the text of a price gives the same price: `parse` undoes
/// `to_string`.
pub proof fn law_price_text_round_trip(c: int)
    requires
        0 < c <= i64::MAX,
    ensures
        parsed_price(cents_text(c as nat)) == Ok::<int, Seq<char>>(c),
        !price_overflows(cents_text(c as nat)),
{
    let w = (c / 100) as nat;
    let r = (c % 100) as nat;
    let d = decimal(w);
    let s = cents_text(c as nat);
    lemma_decimal_digits(w);
    lemma_two_digits(r);
    assert(s == d + seq!['.'] + two_digits(r));
    let l = d.len() as int;
    // no white space around the digits
    assert(is_digit(s[0]));
    assert(s[0] == d[0]);
    assert(s.last() == two_digits(r)[1]);
    assert(trim_start(s) == s);
    assert(trim_end(s) == s);
    assert(trim(s) == s);
    // exactly one point, right after the whole units
    lemma_digits_no_dot(d);
    lemma_digits_no_dot(two_digits(r));
    lemma_dot_count_concat(d, seq!['.']);
    lemma_dot_count_concat(d + seq!['.'], two_digits(r));
    assert(seq!['.'].drop_last() =~= Seq::<char>::empty());
    assert(dot_count(Seq::<char>::empty()) == 0);
    assert(dot_count(seq!['.']) == 1);
    assert forall|j: int| 0 <= j < l implies s[j] != '.' by {
        assert(s[j] == d[j]);
    }
    assert(s[l] == '.');
    lemma_first_dot_at(s, l);
    assert(s.take(l) =~= d);
    assert(s.skip(l + 1) =~= two_digits(r));
    assert(d[0] != '+' && d[0] != '-') by {
        assert(is_digit(d[0]));
    }
    assert(parse_int(d) == Some(w as int));
}

/// The trade log's totals only grow by what is appended: after the trades `ts` of an
/// order join the log, its executed volume and traded value are the old ones plus
/// those of `ts`.
pub proof fn law_trade_log_totals_add_up(log: Seq<Trade>, ts: Seq<Trade>)
    ensures
        traded_volume(log + ts) == traded_volume(log) + traded_volume(ts),
        notional_value(log + ts) == notional_value(log) + notional_value(ts),
    decreases ts.len(),
{
    if ts.len() > 0 {
        assert((log + ts).drop_last() =~= log + ts.drop_last());
        law_trade_log_totals_add_up(log, ts.drop_last());
    } else {
        assert(log + ts =~= log);
    }
}

/// Time priority, part one: an order joins its side behind every resting order at
/// its price, and before every order priced above it.
pub proof fn law_new_order_joins_back_of_level(b: crate::order_book::BookView, o: Order)
    requires
        b.wf(),
    ensures
        ({
            let s = b.side(o.side);
            let k = crate::order_book::level_end(s, cents_of(o));
            &&& b.add(o).side(o.side)[k] == o
            &&& forall|i: int| 0 <= i < k ==> cents_of(#[trigger] b.add(o).side(o.side)[i]) <= cents_of(o)
            &&& forall|i: int| k < i < s.len() + 1 ==> cents_of(#[trigger] b.add(o).side(o.side)[i]) > cents_of(o)
        }),
{
    let s = b.side(o.side);
    crate::order_book::lemma_level_end(s, cents_of(o));
    let k = crate::order_book::level_end(s, cents_of(o));
    let r = s.insert(k, o);
    assert forall|i: int| 0 <= i < k implies cents_of(#[trigger] r[i]) <= cents_of(o) by {
        assert(r[i] == s[i]);
    }
    assert forall|i: int| k < i < s.len() + 1 implies cents_of(#[trigger] r[i]) > cents_of(o) by {
        assert(r[i] == s[i - 1]);
    }
}

/// Time priority, part two: the order with priority is the first of its price level,
/// so no order at the same price stands (arrived) before it, and every order before
/// it is priced worse.
pub proof fn law_priority_goes_to_oldest_at_best_price(s: Seq<Order>, side: Side)
    requires
        s.len() > 0,
        sorted_by_price(s),
    ensures
        forall|j: int|
            0 <= j < best_index(s, side) ==> cents_of(#[trigger] s[j]) != cents_of(
                s[best_index(s, side)],
            ),
{
    lemma_best_index_range(s, side);
    if side == Side::Buy {
        lemma_level_start(s, s.len() - 1);
    }
}

/// Cancelling undoes a submission that did not trade: a limit order that crosses
/// nothing rests whole, and cancelling it gives it back and leaves the book as it was
/// before.
pub proof fn law_cancel_undoes_resting_order(e: EngineView, side: Side, quantity: Quantity, price: Price)
    requires
        e.wf(),
        quantity > 0,
        ({
            let resting = e.book.side(opposite(side));
            resting.len() == 0 || !crosses(
                side,
                Some(price),
                resting[best_index(resting, opposite(side))].price,
            )
        }),
    ensures
        ({
            let id = e.next_order_id;
            let o = Order {
                id,
                side,
                price,
                quantity,
                remaining: quantity,
                sequence: e.next_sequence,
            };
            let (book, ts, left) = e.place(side, quantity, Some(price), id, e.next_sequence);
            &&& ts.len() == 0
            &&& left == quantity
            &&& book == e.book.add(o)
            &&& book.cancel(id) == (e.book, Some(o))
        }),
{
    let id = e.next_order_id;
    let o = Order { id, side, price, quantity, remaining: quantity, sequence: e.next_sequence };
    let s = e.book.side(side);
    let k = crate::order_book::level_end(s, cents_of(o));
    crate::order_book::lemma_level_end(s, cents_of(o));
    let r = s.insert(k, o);
    assert forall|j: int| 0 <= j < k implies (#[trigger] r[j]).id != id by {
        assert(r[j] == s[j]);
    }
    crate::order_book::lemma_position_of_found(r, id, k);
    assert(r.remove(k) =~= s);
    let b = e.book.add(o);
    assert(e.book.with_side(opposite(side), e.book.side(opposite(side))) == e.book);
    if side == Side::Sell {
        assert forall|j: int| 0 <= j < e.book.bids.len() implies (#[trigger] e.book.bids[j]).id
            != id by {}
        crate::order_book::lemma_position_of_absent(e.book.bids, id);
        assert(b.bids == e.book.bids);
    }
}

/// One call on an engine, as the laws on sequences of calls follow it.
#[derive(Debug, Clone, Copy, PartialEq, Eq)]
pub enum Step {
    Limit { side: Side, quantity: Quantity, price: Price },
    Cancel { order_id: OrderId },
}

/// The engine after one call, as `submit_limit_order` and `cancel_order` state it.
pub open spec fn apply(e: EngineView, s: Step) -> EngineView {
    match s {
        Step::Limit { side, quantity, price } => e.after_limit(side, quantity, price),
        Step::Cancel { order_id } => e.after_cancel(order_id),
    }
}

/// The engine after the calls, in turn.
pub open spec fn run_steps(e: EngineView, steps: Seq<Step>) -> EngineView
    decreases steps.len(),
{
    if steps.len() == 0 {
        e
    } else {
        apply(run_steps(e, steps.drop_last()), steps.last())
    }
}

/// The quantity a call hands in: that of a submission (nothing when it is refused
/// for a zero quantity), none for a cancellation.
pub open spec fn handed_in(s: Step) -> nat {
    match s {
        Step::Limit { quantity, .. } => quantity as nat,
        Step::Cancel { .. } => 0,
    }
}

/// The open quantity a call takes back: that of the order a cancellation returns.
pub open spec fn taken_back(e: EngineView, s: Step) -> nat {
    match s {
        Step::Cancel { order_id } => match e.book.cancel(order_id).1 {
            Some(o) => o.remaining as nat,
            None => 0,
        },
        Step::Limit { .. } => 0,
    }
}

/// The trades a call adds to the log: those of its response.
pub open spec fn step_trades(e: EngineView, s: Step) -> Seq<Trade> {
    match s {
        Step::Limit { side, quantity, price } => if quantity == 0 {
            Seq::empty()
        } else {
            e.place(side, quantity, Some(price), e.next_order_id, e.next_sequence).1
        },
        Step::Cancel { .. } => Seq::empty(),
    }
}

/// The quantity the calls hand in, all together.
pub open spec fn total_handed_in(steps: Seq<Step>) -> nat
    decreases steps.len(),
{
    if steps.len() == 0 {
        0
    } else {
        total_handed_in(steps.drop_last()) + handed_in(steps.last())
    }
}

/// The open quantity the cancellations among the calls take back, all together.
pub open spec fn total_taken_back(e: EngineView, steps: Seq<Step>) -> nat
    decreases steps.len(),
{
    if steps.len() == 0 {
        0
    } else {
        total_taken_back(e, steps.drop_last()) + taken_back(
            run_steps(e, steps.drop_last()),
            steps.last(),
        )
    }
}

/// The trades of the responses, in call order.
pub open spec fn responses_trades(e: EngineView, steps: Seq<Step>) -> Seq<Trade>
    decreases steps.len(),
{
    if steps.len() == 0 {
        Seq::empty()
    } else {
        responses_trades(e, steps.drop_last()) + step_trades(
            run_steps(e, steps.drop_last()),
            steps.last(),
        )
    }
}

/// The units an engine accounts for: each traded unit twice (a maker's and a
/// taker's), and every open unit resting on either side.
pub open spec fn units(e: EngineView) -> nat {
    2 * traded_volume(e.trades) + open_volume(e.book.bids) + open_volume(e.book.asks)
}

/// An order added to a side adds its open quantity to the side's open volume.
pub proof fn lemma_open_volume_insert(s: Seq<Order>, k: int, o: Order)
    requires
        0 <= k <= s.len(),
    ensures
        open_volume(s.insert(k, o)) == open_volume(s) + o.remaining,
{
    let r = s.insert(k, o);
    assert(r.remove(k) =~= s);
    lemma_open_volume_remove(r, k);
}

/// A limit submission that is not refused hands its quantity over: what it traded
/// leaves the other side, what is left of it joins its own side.
pub proof fn lemma_place_volumes(e: EngineView, side: Side, quantity: Quantity, price: Price)
    requires
        quantity > 0,
    ensures
        ({
            let (book, ts, left) = e.place(side, quantity, Some(price), e.next_order_id, e.next_sequence);
            &&& open_volume(book.side(side)) == open_volume(e.book.side(side)) + left
            &&& open_volume(book.side(opposite(side))) + traded_volume(ts) == open_volume(
                e.book.side(opposite(side)),
            )
            &&& traded_volume(ts) + left == quantity
        }),
{
    let opp = opposite(side);
    let id = e.next_order_id;
    law_incoming_quantity_accounted(e.book.side(opp), side, Some(price), id, quantity as nat);
    law_resting_volume_accounted(e.book.side(opp), side, Some(price), id, quantity as nat);
    let (ts, rest, left) = match_orders(e.book.side(opp), side, Some(price), id, quantity as nat);
    let book1 = e.book.with_side(opp, rest);
    assert(book1.side(side) == e.book.side(side));
    assert(book1.side(opp) == rest);
    if left > 0 {
        let o = Order {
            id,
            side,
            price,
            quantity,
            remaining: left as u64,
            sequence: e.next_sequence,
        };
        let s = book1.side(side);
        let k = crate::order_book::level_end(s, cents_of(o));
        crate::matching::lemma_level_end_range(s, cents_of(o));
        lemma_open_volume_insert(s, k, o);
        assert(book1.add(o).side(opp) == rest);
    }
}

/// Every unit is accounted for after one call: a submission adds its quantity, a
/// cancellation takes back the open quantity of the order it returns, and nothing
/// else is created or lost.
pub proof fn law_step_conserves_units(e: EngineView, s: Step)
    ensures
        units(apply(e, s)) + taken_back(e, s) == units(e) + handed_in(s),
{
    match s {
        Step::Limit { side, quantity, price } => {
            if quantity > 0 {
                lemma_place_volumes(e, side, quantity, price);
                let (book, ts, left) = e.place(
                    side,
                    quantity,
                    Some(price),
                    e.next_order_id,
                    e.next_sequence,
                );
                law_trade_log_totals_add_up(e.trades, ts);
            }
        },
        Step::Cancel { order_id } => {
            crate::order_book::lemma_position_of(e.book.bids, order_id);
            crate::order_book::lemma_position_of(e.book.asks, order_id);
            let kb = crate::order_book::position_of(e.book.bids, order_id);
            let ka = crate::order_book::position_of(e.book.asks, order_id);
            if kb >= 0 {
                lemma_open_volume_remove(e.book.bids, kb);
            } else if ka >= 0 {
                lemma_open_volume_remove(e.book.asks, ka);
            }
        },
    }
}

/// Conservation over any sequence of submissions and cancellations: the quantity
/// handed in by the submissions equals twice the executed volume (every traded unit
/// fills a maker unit and a taker unit), plus the open volume resting on both sides,
/// plus the open quantity the cancellations took back. Started from an empty engine
/// with no trades, the units of the engine start at zero.
pub proof fn law_quantity_conserved(e: EngineView, steps: Seq<Step>)
    ensures
        units(run_steps(e, steps)) + total_taken_back(e, steps) == units(e) + total_handed_in(steps),
        e.book.bids.len() == 0 && e.book.asks.len() == 0 && e.trades.len() == 0 ==> total_handed_in(
            steps,
        ) == 2 * traded_volume(run_steps(e, steps).trades) + open_volume(
            run_steps(e, steps).book.bids,
        ) + open_volume(run_steps(e, steps).book.asks) + total_taken_back(e, steps),
    decreases steps.len(),
{
    if steps.len() > 0 {
        law_quantity_conserved(e, steps.drop_last());
        law_step_conserves_units(run_steps(e, steps.drop_last()), steps.last());
    }
    if e.book.bids.len() == 0 && e.book.asks.len() == 0 && e.trades.len() == 0 {
        assert(open_volume(e.book.bids) == 0);
        assert(open_volume(e.book.asks) == 0);
        assert(traded_volume(e.trades) == 0);
    }
}

/// The trade log is append-only: after any sequence of calls it is the trades it
/// held before followed by the trades of each response, in call order (a
/// cancellation or a refused submission adds none), and what it held after any
/// earlier prefix of the calls is a prefix of it.
pub proof fn law_trade_log_append_only(e: EngineView, steps: Seq<Step>)
    ensures
        run_steps(e, steps).trades == e.trades + responses_trades(e, steps),
        forall|i: int|
            0 <= i <= steps.len() ==> run_steps(e, #[trigger] steps.take(i)).trades.len()
                <= run_steps(e, steps).trades.len() && run_steps(e, steps).trades.take(
                run_steps(e, steps.take(i)).trades.len() as int,
            ) == run_steps(e, steps.take(i)).trades,
    decreases steps.len(),
{
    if steps.len() == 0 {
        assert(e.trades + Seq::<Trade>::empty() =~= e.trades);
        assert forall|i: int| 0 <= i <= steps.len() implies run_steps(
            e,
            #[trigger] steps.take(i),
        ).trades.len() <= run_steps(e, steps).trades.len() && run_steps(e, steps).trades.take(
            run_steps(e, steps.take(i)).trades.len() as int,
        ) == run_steps(e, steps.take(i)).trades by {
            assert(steps.take(i) =~= steps);
            assert(run_steps(e, steps).trades.take(run_steps(e, steps).trades.len() as int)
                =~= run_steps(e, steps).trades);
        }
    } else {
        let front = steps.drop_last();
        law_trade_log_append_only(e, front);
        let mid = run_steps(e, front);
        let last = steps.last();
        assert(apply(mid, last).trades == mid.trades + step_trades(mid, last));
        assert(run_steps(e, steps).trades =~= e.trades + responses_trades(e, steps));
        let all = run_steps(e, steps).trades;
        assert forall|i: int| 0 <= i <= steps.len() implies run_steps(e, #[trigger] steps.take(i)).trades.len()
            <= all.len() && all.take(run_steps(e, steps.take(i)).trades.len() as int)
            == run_steps(e, steps.take(i)).trades by {
            if i == steps.len() {
                assert(steps.take(i) =~= steps);
                assert(all.take(all.len() as int) =~= all);
            } else {
                assert(steps.take(i) =~= front.take(i));
                let t = run_steps(e, front.take(i)).trades;
                assert(front.take(i) == #[trigger] front.take(i));
                assert(mid.trades.take(t.len() as int) == t);
                assert(all.take(t.len() as int) =~= mid.trades.take(t.len() as int));
            }
        }
    }
}

/// What one limit submission does to the volumes and what a cancellation right after
/// it finds: its own side gains what is left open of it, the other side loses what it
/// traded, and a cancellation of its id gives back the order with that open quantity
/// when something is left, and nothing when it was filled.
pub proof fn law_submission_volumes_and_cancel(
    e: EngineView,
    side: Side,
    quantity: Quantity,
    price: Price,
)
    requires
        e.wf(),
        quantity > 0,
    ensures
        ({
            let id = e.next_order_id;
            let (book, ts, left) = e.place(side, quantity, Some(price), id, e.next_sequence);
            &&& open_volume(book.side(side)) == open_volume(e.book.side(side)) + left
            &&& open_volume(book.side(opposite(side))) + traded_volume(ts) == open_volume(
                e.book.side(opposite(side)),
            )
            &&& left > 0 ==> book.cancel(id).1 == Some(
                Order { id, side, price, quantity, remaining: left as u64, sequence: e.next_sequence },
            )
            &&& left == 0 ==> book.cancel(id).1 is None
        }),
{
    lemma_place_volumes(e, side, quantity, price);
    let id = e.next_order_id;
    let opp = opposite(side);
    crate::engine::lemma_fresh_id_absent(e);
    crate::engine::lemma_incoming_absent(e, id);
    crate::engine::lemma_match_absent(e.book.side(opp), side, Some(price), id, quantity as nat);
    let (ts, rest, left) = match_orders(e.book.side(opp), side, Some(price), id, quantity as nat);
    let book1 = e.book.with_side(opp, rest);
    let own = e.book.side(side);
    crate::order_book::lemma_position_of_absent(rest, id);
    crate::order_book::lemma_position_of_absent(own, id);
    if left > 0 {
        let o = Order { id, side, price, quantity, remaining: left as u64, sequence: e.next_sequence };
        let k = crate::order_book::level_end(own, cents_of(o));
        crate::matching::lemma_level_end_range(own, cents_of(o));
        let r = own.insert(k, o);
        assert forall|j: int| 0 <= j < k implies (#[trigger] r[j]).id != id by {
            assert(r[j] == own[j]);
        }
        crate::order_book::lemma_position_of_found(r, id, k);
        assert(book1.side(side) == own);
        assert(book1.add(o).side(side) == r);
        assert(book1.add(o).side(opp) == rest);
    } else {
        assert(book1.side(side) == own);
        assert(book1.side(opp) == rest);
    }
}

/// A submission leaves the book uncrossed: every bid stays below every ask, so the
/// best bid is below the best ask; and an order left open rests beyond what remains
/// on the other side (a buy below every ask, a sell above every bid).
pub proof fn law_submission_keeps_book_uncrossed(
    e: EngineView,
    side: Side,
    quantity: Quantity,
    price: Price,
)
    requires
        e.wf(),
    ensures
        crate::matching::uncrossed(
            e.after_limit(side, quantity, price).book.bids,
            e.after_limit(side, quantity, price).book.asks,
        ),
        e.after_limit(side, quantity, price).book.best_bid() matches Some(b) ==> e.after_limit(
            side,
            quantity,
            price,
        ).book.best_ask() matches Some(a) ==> b.view_cents() < a.view_cents(),
        quantity > 0 ==> ({
            let (book, ts, left) = e.place(side, quantity, Some(price), e.next_order_id, e.next_sequence);
            &&& left > 0 && side == Side::Buy ==> book.best_ask() is None
                || book.best_ask()->0.view_cents() > price.view_cents()
            &&& left > 0 && side == Side::Sell ==> book.best_bid() is None
                || book.best_bid()->0.view_cents() < price.view_cents()
        }),
{
    let after = e.after_limit(side, quantity, price);
    if quantity > 0 {
        let id = e.next_order_id;
        let opp = opposite(side);
        let n = e.next_order_id;
        crate::matching::lemma_match_keeps(
            e.book.side(opp),
            e.book.side(side),
            side,
            Some(price),
            id,
            quantity as nat,
            n,
        );
        crate::matching::lemma_match_stops(e.book.side(opp), side, Some(price), id, quantity as nat);
        let (ts, rest, left) = match_orders(e.book.side(opp), side, Some(price), id, quantity as nat);
        let own = e.book.side(side);
        if left > 0 {
            let o = Order { id, side, price, quantity, remaining: left as u64, sequence: e.next_sequence };
            let k = crate::order_book::level_end(own, cents_of(o));
            crate::matching::lemma_level_end_range(own, cents_of(o));
            let r = own.insert(k, o);
            if side == Side::Buy {
                crate::matching::lemma_rest_below_asks(rest, price);
                assert forall|i: int, j: int| 0 <= i < r.len() && 0 <= j < rest.len() implies cents_of(
                    #[trigger] r[i]) < cents_of(#[trigger] rest[j]) by {
                    if i < k {
                        assert(r[i] == own[i]);
                    } else if i > k {
                        assert(r[i] == own[i - 1]);
                    }
                }
                assert(after.book.bids == r);
                assert(after.book.asks == rest);
                if rest.len() > 0 {
                    assert(cents_of(rest[0]) > price.view_cents());
                }
            } else {
                crate::matching::lemma_rest_above_bids(rest, price);
                assert forall|i: int, j: int| 0 <= i < rest.len() && 0 <= j < r.len() implies cents_of(
                    #[trigger] rest[i]) < cents_of(#[trigger] r[j]) by {
                    if j < k {
                        assert(r[j] == own[j]);
                    } else if j > k {
                        assert(r[j] == own[j - 1]);
                    }
                }
                assert(after.book.bids == rest);
                assert(after.book.asks == r);
                if rest.len() > 0 {
                    assert(cents_of(rest[rest.len() - 1]) < price.view_cents());
                }
            }
        } else {
            if side == Side::Buy {
                assert(after.book.bids == own);
                assert(after.book.asks == rest);
            } else {
                assert(after.book.bids == rest);
                assert(after.book.asks == own);
            }
        }
    }
    let b = after.book;
    if b.bids.len() > 0 && b.asks.len() > 0 {
        assert(cents_of(b.bids[b.bids.len() - 1]) < cents_of(b.asks[0]));
    }
}

/// Adding an order keeps each price level in time priority: when the book's sides
/// are in price order and time priority and the new order is newer than every order
/// in the book, the book with the order at the back of its level is still in price
/// order, and at every price the orders stand in the order they arrived.
pub proof fn law_add_keeps_time_priority(b: crate::order_book::BookView, o: Order)
    requires
        b.wf(),
        time_ordered(b.bids, o.sequence as int),
        time_ordered(b.asks, o.sequence as int),
    ensures
        b.add(o).wf(),
        time_ordered(b.add(o).bids, o.sequence + 1),
        time_ordered(b.add(o).asks, o.sequence + 1),
{
    let s = b.side(o.side);
    crate::order_book::lemma_insert_at_level_end(s, o.side, o);
    lemma_time_ordered_add(s, o);
    if o.side == Side::Buy {
        assert(b.add(o).asks == b.asks);
    } else {
        assert(b.add(o).bids == b.bids);
    }
}

/// In every engine the library hands out (`new` starts one, and every call that
/// changes one keeps it live), an order's place within its price level is its time
/// priority: of two orders at one price on one side, the one ahead arrived first.
pub proof fn law_levels_keep_time_priority(e: EngineView)
    requires
        e.wf(),
    ensures
        forall|i: int, j: int|
            0 <= i < j < e.book.bids.len() && cents_of(e.book.bids[i]) == cents_of(e.book.bids[j])
                ==> (#[trigger] e.book.bids[i]).sequence < (#[trigger] e.book.bids[j]).sequence,
        forall|i: int, j: int|
            0 <= i < j < e.book.asks.len() && cents_of(e.book.asks[i]) == cents_of(e.book.asks[j])
                ==> (#[trigger] e.book.asks[i]).sequence < (#[trigger] e.book.asks[j]).sequence,
        forall|i: int| 0 <= i < e.book.bids.len() ==> (#[trigger] e.book.bids[i]).sequence < e.next_sequence,
        forall|i: int| 0 <= i < e.book.asks.len() ==> (#[trigger] e.book.asks[i]).sequence < e.next_sequence,
{
}

/// The resting order of `resting` that a trade names as its maker: one with the
/// trade's maker id, at the trade's price.
pub open spec fn names_resting_maker(resting: Seq<Order>, t: Trade) -> bool {
    exists|j: int|
        0 <= j < resting.len() && (#[trigger] resting[j]).id == t.maker_order_id && resting[j].price
            == t.price
}

/// Every trade an incoming order makes names the incoming order as its taker and,
/// as its maker, the id of an order that rested on the other side at the trade's
/// price; the first trade is with the order that had priority there.
pub proof fn law_trades_name_resting_makers(
    resting: Seq<Order>,
    taker: Side,
    limit: Option<Price>,
    taker_id: OrderId,
    remaining: nat,
)
    ensures
        ({
            let (ts, rest, left) = match_orders(resting, taker, limit, taker_id, remaining);
            &&& forall|i: int| 0 <= i < ts.len() ==> (#[trigger] ts[i]).taker_order_id == taker_id
            &&& forall|i: int| 0 <= i < ts.len() ==> names_resting_maker(resting, #[trigger] ts[i])
            &&& ts.len() > 0 ==> ts[0].maker_order_id == resting[best_index(
                resting,
                opposite(taker),
            )].id
        }),
    decreases resting.len(),
{
    let (ts, rest, left) = match_orders(resting, taker, limit, taker_id, remaining);
    if remaining == 0 || resting.len() == 0 {
    } else {
        let k = best_index(resting, opposite(taker));
        lemma_best_index_range(resting, opposite(taker));
        let m = resting[k];
        if crosses(taker, limit, m.price) {
            let q = min_nat(remaining, m.remaining as nat);
            assert(ts[0].maker_order_id == resting[k].id && ts[0].price == resting[k].price);
            assert(names_resting_maker(resting, ts[0]));
            if q == m.remaining {
                let r = resting.remove(k);
                law_trades_name_resting_makers(r, taker, limit, taker_id, (remaining - q) as nat);
                let (ts2, rest2, left2) = match_orders(
                    r,
                    taker,
                    limit,
                    taker_id,
                    (remaining - q) as nat,
                );
                assert(ts.len() == ts2.len() + 1);
                assert forall|i: int| 0 <= i < ts.len() implies (#[trigger] ts[i]).taker_order_id
                    == taker_id && names_resting_maker(resting, ts[i]) by {
                    if i > 0 {
                        let t2 = ts2[i - 1];
                        assert(ts[i] == t2);
                        assert(names_resting_maker(r, t2));
                        let j2 = choose|j: int|
                            0 <= j < r.len() && (#[trigger] r[j]).id == t2.maker_order_id
                                && r[j].price == t2.price;
                        let j = if j2 < k {
                            j2
                        } else {
                            j2 + 1
                        };
                        assert(resting[j] == r[j2]);
                    }
                }
            }
        }
    }
}

/// Of a well-formed book, the best bid is the price of a resting bid and no bid is
/// priced above it; the best ask is the price of a resting ask and no ask is priced
/// below it; each is there exactly when its side holds orders, and the spread is the
/// best ask less the best bid.
pub proof fn law_best_prices_are_extreme(b: crate::order_book::BookView)
    requires
        b.wf(),
    ensures
        b.best_bid() is Some <==> b.bids.len() > 0,
        b.best_ask() is Some <==> b.asks.len() > 0,
        b.best_bid() matches Some(p) ==> (exists|j: int|
            0 <= j < b.bids.len() && (#[trigger] b.bids[j]).price == p),
        b.best_bid() matches Some(p) ==> (forall|j: int|
            0 <= j < b.bids.len() ==> cents_of(#[trigger] b.bids[j]) <= p.view_cents()),
        b.best_ask() matches Some(p) ==> (exists|j: int|
            0 <= j < b.asks.len() && (#[trigger] b.asks[j]).price == p),
        b.best_ask() matches Some(p) ==> (forall|j: int|
            0 <= j < b.asks.len() ==> p.view_cents() <= cents_of(#[trigger] b.asks[j])),
        b.spread() matches Some(d) ==> (b.best_ask() matches Some(a) && b.best_bid() matches Some(
            c,
        ) && d == a.view_cents() - c.view_cents()),
{
    if b.bids.len() > 0 {
        let n = b.bids.len() - 1;
        assert(b.bids[n].price == b.best_bid()->0);
        assert forall|j: int| 0 <= j < b.bids.len() implies cents_of(#[trigger] b.bids[j])
            <= b.best_bid()->0.view_cents() by {
            assert(cents_of(b.bids[j]) <= cents_of(b.bids[n]));
        }
    }
    if b.asks.len() > 0 {
        assert(b.asks[0].price == b.best_ask()->0);
        assert forall|j: int| 0 <= j < b.asks.len() implies b.best_ask()->0.view_cents()
            <= cents_of(#[trigger] b.asks[j]) by {
            assert(cents_of(b.asks[0]) <= cents_of(b.asks[j]));
        }
    }
}

/// The open quantity the depth view gives its levels, all together.
pub open spec fn levels_volume(ls: Seq<crate::order_book::LevelSummary>) -> nat
    decreases ls.len(),
{
    if ls.len() == 0 {
        0
    } else {
        levels_volume(ls.drop_last()) + ls.last().1
    }
}

/// The number of orders the depth view gives its levels, all together.
pub open spec fn levels_count(ls: Seq<crate::order_book::LevelSummary>) -> nat
    decreases ls.len(),
{
    if ls.len() == 0 {
        0
    } else {
        levels_count(ls.drop_last()) + ls.last().2
    }
}

/// The levels of the depth view account for every open unit and every order of a
/// side: their quantities add up to the side's open volume (what is still open,
/// not what was first asked for), and their order counts to its number of orders.
pub proof fn law_levels_account_for_open_volume(s: Seq<Order>)
    ensures
        levels_volume(crate::order_book::levels(s)) == open_volume(s),
        levels_count(crate::order_book::levels(s)) == s.len(),
    decreases s.len(),
{
    if s.len() > 0 {
        let l = crate::order_book::levels(s.drop_last());
        law_levels_account_for_open_volume(s.drop_last());
        let o = s.last();
        if l.len() > 0 && l.last().0 == o.price {
            let x = (o.price, l.last().1 + o.remaining as nat, l.last().2 + 1);
            let u = l.update(l.len() - 1, x);
            assert(u.drop_last() =~= l.drop_last());
            assert(u.last() == x);
        } else {
            let x = (o.price, o.remaining as nat, 1nat);
            assert(l.push(x).drop_last() =~= l);
        }
    }
}

/// A signed amount of cents is written with a minus sign exactly when it is negative,
/// the sign is its only '-', and after the sign stands the amount's absolute value
/// as units, a point and two decimals.
pub proof fn law_signed_cents_text(c: int)
    ensures
        (signed_cents_text(c).len() > 0 && signed_cents_text(c)[0] == '-') <==> c < 0,
        forall|i: int|
            0 <= i < signed_cents_text(c).len() && (i > 0 || c >= 0) ==> #[trigger] signed_cents_text(
                c,
            )[i] != '-',
        c >= 0 ==> signed_cents_text(c) == cents_text(c as nat),
        c < 0 ==> signed_cents_text(c) == seq!['-'] + cents_text((-c) as nat),
{
    let a: nat = if c < 0 {
        (-c) as nat
    } else {
        c as nat
    };
    let t = cents_text(a);
    lemma_decimal_digits(a / 100);
    lemma_two_digits(a % 100);
    let d = decimal(a / 100);
    assert forall|i: int| 0 <= i < t.len() implies #[trigger] t[i] != '-' by {
        if i < d.len() {
            assert(t[i] == d[i]);
            assert(is_digit(d[i]));
        } else if i > d.len() {
            assert(t[i] == two_digits(a % 100)[i - d.len() - 1]);
            assert(is_digit(two_digits(a % 100)[i - d.len() - 1]));
        }
    }
    if c >= 0 {
        assert(signed_cents_text(c) == t);
    } else {
        let u = signed_cents_text(c);
        assert(u == seq!['-'] + t);
        assert forall|i: int| 0 < i < u.len() implies #[trigger] u[i] != '-' by {
            assert(u[i] == t[i - 1]);
        }
    }
}

/// Each level of the depth view stands for a price some order of the side rests at,
/// and a side in price order gives its levels in strictly ascending price, one level
/// per price.
pub proof fn law_levels_are_resting_prices(s: Seq<Order>)
    ensures
        forall|i: int|
            0 <= i < crate::order_book::levels(s).len() ==> exists|j: int|
                0 <= j < s.len() && (#[trigger] s[j]).price == (
                #[trigger] crate::order_book::levels(s)[i]).0,
        sorted_by_price(s) ==> forall|i: int, j: int|
            0 <= i < j < crate::order_book::levels(s).len() ==> (
            #[trigger] crate::order_book::levels(s)[i]).0.view_cents() < (
            #[trigger] crate::order_book::levels(s)[j]).0.view_cents(),
        s.len() > 0 ==> crate::order_book::levels(s).len() > 0 && crate::order_book::levels(
            s,
        ).last().0 == s.last().price,
    decreases s.len(),
{
    if s.len() > 0 {
        let t = s.drop_last();
        let l = crate::order_book::levels(t);
        let r = crate::order_book::levels(s);
        law_levels_are_resting_prices(t);
        let o = s.last();
        let n = s.len() - 1;
        assert forall|i: int| 0 <= i < r.len() implies exists|j: int|
            0 <= j < s.len() && (#[trigger] s[j]).price == (#[trigger] r[i]).0 by {
            if i == r.len() - 1 {
                assert(s[n].price == r[i].0);
            } else {
                assert(r[i] == l[i]);
                let j = choose|j: int| 0 <= j < t.len() && (#[trigger] t[j]).price == l[i].0;
                assert(s[j] == t[j]);
            }
        }
        if sorted_by_price(s) {
            assert(sorted_by_price(t));
            assert forall|i: int, j: int| 0 <= i < j < r.len() implies (
            #[trigger] r[i]).0.view_cents() < (#[trigger] r[j]).0.view_cents() by {
                if j < r.len() - 1 {
                    assert(r[i] == l[i] && r[j] == l[j]);
                } else {
                    assert(r[i] == l[i]);
                    let w = choose|w: int| 0 <= w < t.len() && (#[trigger] t[w]).price == l[i].0;
                    assert(cents_of(s[w]) <= cents_of(s[n]));
                    if l.len() > 0 && l.last().0 == o.price {
                        assert(i < l.len() - 1);
                        assert(l[i].0.view_cents() < l[l.len() - 1].0.view_cents());
                    } else {
                        crate::types::lemma_price_cents_injective(l[i].0, o.price);
                        if i < l.len() - 1 {
                            assert(l[i].0.view_cents() < l[l.len() - 1].0.view_cents());
                        }
                        let v = t.len() - 1;
                        assert(cents_of(t[v]) <= cents_of(s[n]));
                        crate::types::lemma_price_cents_injective(l[l.len() - 1].0, o.price);
                    }
                }
            }
        }
    }
}

/// Every price an order of the side rests at has its level in the depth view.
pub proof fn law_every_resting_price_has_a_level(s: Seq<Order>)
    ensures
        forall|j: int|
            0 <= j < s.len() ==> exists|i: int|
                0 <= i < crate::order_book::levels(s).len() && (
                #[trigger] crate::order_book::levels(s)[i]).0 == (#[trigger] s[j]).price,
    decreases s.len(),
{
    if s.len() > 0 {
        let t = s.drop_last();
        let l = crate::order_book::levels(t);
        let r = crate::order_book::levels(s);
        law_every_resting_price_has_a_level(t);
        law_levels_are_resting_prices(s);
        let o = s.last();
        let n = s.len() - 1;
        assert forall|j: int| 0 <= j < s.len() implies exists|i: int|
            0 <= i < r.len() && (#[trigger] r[i]).0 == (#[trigger] s[j]).price by {
            if j == n {
                assert(r[r.len() - 1].0 == s[j].price);
            } else {
                assert(s[j] == t[j]);
                let i = choose|i: int|
                    0 <= i < l.len() && (#[trigger] l[i]).0 == (#[trigger] t[j]).price;
                if i < l.len() - 1 {
                    assert(r[i] == l[i]);
                } else if l.len() > 0 && l.last().0 == o.price {
                    assert(r[i].0 == l[i].0);
                } else {
                    assert(r[i] == l[i]);
                }
            }
        }
    }
}

/// The first level of a side in price order is at the price of its first order.
proof fn lemma_first_level_price(s: Seq<Order>)
    requires
        sorted_by_price(s),
        s.len() > 0,
    ensures
        crate::order_book::levels(s).len() > 0,
        crate::order_book::levels(s)[0].0 == s[0].price,
{
    let la = crate::order_book::levels(s);
    law_levels_are_resting_prices(s);
    law_every_resting_price_has_a_level(s);
    let w = choose|w: int| 0 <= w < s.len() && (#[trigger] s[w]).price == la[0].0;
    let i = choose|i: int| 0 <= i < la.len() && (#[trigger] la[i]).0 == (#[trigger] s[0]).price;
    assert(cents_of(s[0]) <= cents_of(s[w]));
    if i > 0 {
        assert(la[0].0.view_cents() < la[i].0.view_cents());
    }
    crate::types::lemma_price_cents_injective(la[0].0, s[0].price);
}

/// The depth view of a well-formed book shows at most `depth` levels per side, best
/// first: the asks from the best ask upwards, the bids from the best bid downwards,
/// one row per price.
pub proof fn law_depth_shows_best_levels_first(b: crate::order_book::BookView, depth: nat)
    requires
        b.wf(),
    ensures
        crate::order_book::shown_asks(b.asks, depth).len() == crate::order_book::min_depth(
            depth,
            crate::order_book::levels(b.asks).len(),
        ),
        crate::order_book::shown_bids(b.bids, depth).len() == crate::order_book::min_depth(
            depth,
            crate::order_book::levels(b.bids).len(),
        ),
        forall|i: int, j: int|
            0 <= i < j < crate::order_book::shown_asks(b.asks, depth).len() ==> (
            #[trigger] crate::order_book::shown_asks(b.asks, depth)[i]).0.view_cents() < (
            #[trigger] crate::order_book::shown_asks(b.asks, depth)[j]).0.view_cents(),
        forall|i: int, j: int|
            0 <= i < j < crate::order_book::shown_bids(b.bids, depth).len() ==> (
            #[trigger] crate::order_book::shown_bids(b.bids, depth)[i]).0.view_cents() > (
            #[trigger] crate::order_book::shown_bids(b.bids, depth)[j]).0.view_cents(),
        depth > 0 && b.asks.len() > 0 ==> crate::order_book::shown_asks(b.asks, depth)[0].0
            == b.best_ask()->0,
        depth > 0 && b.bids.len() > 0 ==> crate::order_book::shown_bids(b.bids, depth)[0].0
            == b.best_bid()->0,
{
    let la = crate::order_book::levels(b.asks);
    let lb = crate::order_book::levels(b.bids);
    let sa = crate::order_book::shown_asks(b.asks, depth);
    let sb = crate::order_book::shown_bids(b.bids, depth);
    law_levels_are_resting_prices(b.asks);
    law_levels_are_resting_prices(b.bids);
    assert forall|i: int, j: int| 0 <= i < j < sa.len() implies (#[trigger] sa[i]).0.view_cents()
        < (#[trigger] sa[j]).0.view_cents() by {
        assert(sa[i] == la[i] && sa[j] == la[j]);
    }
    assert forall|i: int, j: int| 0 <= i < j < sb.len() implies (#[trigger] sb[i]).0.view_cents()
        > (#[trigger] sb[j]).0.view_cents() by {
        assert(sb[i] == lb[lb.len() - 1 - i] && sb[j] == lb[lb.len() - 1 - j]);
    }
    if depth > 0 && b.asks.len() > 0 {
        lemma_first_level_price(b.asks);
        assert(sa[0] == la[0]);
    }
    if depth > 0 && b.bids.len() > 0 {
        assert(sb[0] == lb[lb.len() - 1]);
    }
}

/// Every trade of an order submitted to a live engine (limit or market) names the
/// new order as its taker and, as its maker, an order that was resting on the other
/// side at the trade's price: an earlier order, never the new one itself.
pub proof fn law_submission_trades_name_earlier_makers(
    e: EngineView,
    side: Side,
    quantity: Quantity,
    limit: Option<Price>,
)
    requires
        e.wf(),
    ensures
        ({
            let ts = e.place(side, quantity, limit, e.next_order_id, e.next_sequence).1;
            &&& forall|i: int|
                0 <= i < ts.len() ==> (#[trigger] ts[i]).taker_order_id == e.next_order_id
            &&& forall|i: int|
                0 <= i < ts.len() ==> names_resting_maker(
                    e.book.side(opposite(side)),
                    #[trigger] ts[i],
                )
            &&& forall|i: int|
                0 <= i < ts.len() ==> (#[trigger] ts[i]).maker_order_id < e.next_order_id
        }),
{
    let resting = e.book.side(opposite(side));
    law_trades_name_resting_makers(resting, side, limit, e.next_order_id, quantity as nat);
    let ts = e.place(side, quantity, limit, e.next_order_id, e.next_sequence).1;
    assert forall|i: int| 0 <= i < ts.len() implies (#[trigger] ts[i]).maker_order_id
        < e.next_order_id by {
        assert(names_resting_maker(resting, ts[i]));
        let j = choose|j: int|
            0 <= j < resting.len() && (#[trigger] resting[j]).id == ts[i].maker_order_id
                && resting[j].price == ts[i].price;
        assert(resting[j].id < e.next_order_id);
    }
}

} // verus!
