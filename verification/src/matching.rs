use vstd::prelude::*;

use crate::order::Order;
use crate::order_book::{
    all_on_side, best_index, cents_of, fill_at, find, lemma_fill_at_wf, lemma_level_end,
    lemma_level_start, lemma_position_of, lemma_position_of_absent, lemma_position_of_found,
    level_end, position_of, sorted_by_price, BookView,
};
use crate::trade::Trade;
use crate::types::{OrderId, Price, Quantity, Side};

verus! {

/// The side an incoming order trades against.
pub open spec fn opposite(side: Side) -> Side {
    match side {
        Side::Buy => Side::Sell,
        Side::Sell => Side::Buy,
    }
}

/// Whether an incoming order on `taker` side, limited to `limit` (none for a market
/// order), may trade with a resting order priced `maker`: a buy takes asks at or
/// below its limit, a sell takes bids at or above it.
pub open spec fn crosses(taker: Side, limit: Option<Price>, maker: Price) -> bool {
    match limit {
        None => true,
        Some(p) => match taker {
            Side::Buy => maker.view_cents() <= p.view_cents(),
            Side::Sell => maker.view_cents() >= p.view_cents(),
        },
    }
}

pub open spec fn min_nat(a: nat, b: nat) -> nat {
    if a <= b {
        a
    } else {
        b
    }
}

/// Price-time priority matching of an incoming order against the resting side
/// `resting` (the side opposite to `taker`): while something of the incoming order is
/// open and the order with priority crosses, trade the smaller of the two open
/// quantities at the resting order's price. Gives the trades in execution order, the
/// resting side afterwards and the incoming quantity left open.
pub open spec fn match_orders(
    resting: Seq<Order>,
    taker: Side,
    limit: Option<Price>,
    taker_id: OrderId,
    remaining: nat,
) -> (Seq<Trade>, Seq<Order>, nat)
    decreases resting.len(),
{
    if remaining == 0 || resting.len() == 0 {
        (Seq::empty(), resting, remaining)
    } else {
        let k = best_index(resting, opposite(taker));
        let m = resting[k];
        if !crosses(taker, limit, m.price) {
            (Seq::empty(), resting, remaining)
        } else {
            let q = min_nat(remaining, m.remaining as nat);
            let t = Trade {
                maker_order_id: m.id,
                taker_order_id: taker_id,
                price: m.price,
                quantity: q as u64,
            };
            if q == m.remaining {
                proof {
                    lemma_best_index_range(resting, opposite(taker));
                }
                let (ts, rest, left) = match_orders(
                    resting.remove(k),
                    taker,
                    limit,
                    taker_id,
                    (remaining - q) as nat,
                );
                (seq![t] + ts, rest, left)
            } else {
                (seq![t], fill_at(resting, k, q), 0)
            }
        }
    }
}

/// Every order is still open.
pub open spec fn all_open(s: Seq<Order>) -> bool {
    forall|i: int| 0 <= i < s.len() ==> (#[trigger] s[i]).remaining > 0
}

/// No two orders share an id.
pub open spec fn distinct_ids(s: Seq<Order>) -> bool {
    forall|i: int, j: int| 0 <= i < j < s.len() ==> (#[trigger] s[i]).id != (#[trigger] s[j]).id
}

/// Every id was handed out before `n`.
pub open spec fn ids_below(s: Seq<Order>, n: u64) -> bool {
    forall|i: int| 0 <= i < s.len() ==> (#[trigger] s[i]).id < n
}

/// No order of `a` shares an id with an order of `b`.
pub open spec fn disjoint_ids(a: Seq<Order>, b: Seq<Order>) -> bool {
    forall|i: int, j: int| 0 <= i < a.len() && 0 <= j < b.len() ==> (#[trigger] a[i]).id != (
    #[trigger] b[j]).id
}

/// Every bid is priced below every ask.
pub open spec fn uncrossed(bids: Seq<Order>, asks: Seq<Order>) -> bool {
    forall|i: int, j: int|
        0 <= i < bids.len() && 0 <= j < asks.len() ==> cents_of(#[trigger] bids[i]) < cents_of(
            #[trigger] asks[j],
        )
}

/// What one side of a live book keeps: price order, its own side, only open
/// orders, distinct ids, ids already handed out.
pub open spec fn side_ok(s: Seq<Order>, side: Side, n: u64) -> bool {
    &&& sorted_by_price(s)
    &&& all_on_side(s, side)
    &&& all_open(s)
    &&& distinct_ids(s)
    &&& ids_below(s, n)
}

/// What the two sides of a live book keep together: no shared id, no crossing.
pub open spec fn cross_ok(bids: Seq<Order>, asks: Seq<Order>) -> bool {
    disjoint_ids(bids, asks) && uncrossed(bids, asks)
}

pub proof fn lemma_best_index_range(s: Seq<Order>, side: Side)
    requires
        s.len() > 0,
    ensures
        0 <= best_index(s, side) < s.len(),
{
    if side == Side::Buy {
        lemma_level_start_range(s, s.len() - 1);
    }
}

/// Where a price level ends is a position of the side, sorted or not.
pub proof fn lemma_level_end_range(s: Seq<Order>, cents: int)
    ensures
        0 <= level_end(s, cents) <= s.len(),
    decreases s.len(),
{
    if s.len() > 0 && cents_of(s[0]) <= cents {
        lemma_level_end_range(s.drop_first(), cents);
    }
}

pub proof fn lemma_level_start_range(s: Seq<Order>, i: int)
    requires
        0 <= i < s.len(),
    ensures
        0 <= crate::order_book::level_start(s, i) <= i,
    decreases i,
{
    if 0 < i && cents_of(s[i - 1]) == cents_of(s[i]) {
        lemma_level_start_range(s, i - 1);
    }
}

/// Where an order of `fill_at(s, k, q)` stood in `s`.
pub open spec fn fill_source(s: Seq<Order>, k: int, q: nat, i: int) -> int {
    if q == s[k].remaining && i >= k {
        i + 1
    } else {
        i
    }
}

pub proof fn lemma_fill_source(s: Seq<Order>, k: int, q: nat, i: int)
    requires
        0 <= k < s.len(),
        q <= s[k].remaining,
        0 <= i < fill_at(s, k, q).len(),
    ensures
        0 <= fill_source(s, k, q, i) < s.len(),
        fill_at(s, k, q)[i].id == s[fill_source(s, k, q, i)].id,
        fill_at(s, k, q)[i].price == s[fill_source(s, k, q, i)].price,
        fill_at(s, k, q)[i].side == s[fill_source(s, k, q, i)].side,
        fill_at(s, k, q)[i].remaining == s[fill_source(s, k, q, i)].remaining || (i == k
            && fill_at(s, k, q)[i].remaining == s[k].remaining - q && q < s[k].remaining),
{
}

/// Executing against one order keeps what a live side keeps.
pub proof fn lemma_fill_at_side_ok(s: Seq<Order>, side: Side, n: u64, k: int, q: nat)
    requires
        side_ok(s, side, n),
        0 <= k < s.len(),
        q <= s[k].remaining,
    ensures
        side_ok(fill_at(s, k, q), side, n),
        fill_at(s, k, q).len() <= s.len(),
{
    lemma_fill_at_wf(s, side, k, q);
    let r = fill_at(s, k, q);
    assert forall|i: int| 0 <= i < r.len() implies (#[trigger] r[i]).remaining > 0 && r[i].id
        < n by {
        lemma_fill_source(s, k, q, i);
    }
    assert forall|i: int, j: int| 0 <= i < j < r.len() implies (#[trigger] r[i]).id != (
    #[trigger] r[j]).id by {
        lemma_fill_source(s, k, q, i);
        lemma_fill_source(s, k, q, j);
    }
}

/// Executing against an ask keeps the book uncrossed and the ids apart.
pub proof fn lemma_fill_at_cross_asks(bids: Seq<Order>, asks: Seq<Order>, k: int, q: nat)
    requires
        cross_ok(bids, asks),
        0 <= k < asks.len(),
        q <= asks[k].remaining,
    ensures
        cross_ok(bids, fill_at(asks, k, q)),
{
    let r = fill_at(asks, k, q);
    assert forall|i: int, j: int| 0 <= i < bids.len() && 0 <= j < r.len() implies (
    #[trigger] bids[i]).id != (#[trigger] r[j]).id && cents_of(bids[i]) < cents_of(r[j]) by {
        lemma_fill_source(asks, k, q, j);
        let j2 = fill_source(asks, k, q, j);
        assert(bids[i].id != asks[j2].id);
        assert(cents_of(bids[i]) < cents_of(asks[j2]));
    }
}

/// Executing against a bid keeps the book uncrossed and the ids apart.
pub proof fn lemma_fill_at_cross_bids(bids: Seq<Order>, asks: Seq<Order>, k: int, q: nat)
    requires
        cross_ok(bids, asks),
        0 <= k < bids.len(),
        q <= bids[k].remaining,
    ensures
        cross_ok(fill_at(bids, k, q), asks),
{
    let r = fill_at(bids, k, q);
    assert forall|i: int, j: int| 0 <= i < r.len() && 0 <= j < asks.len() implies (
    #[trigger] r[i]).id != (#[trigger] asks[j]).id && cents_of(r[i]) < cents_of(asks[j]) by {
        lemma_fill_source(bids, k, q, i);
        let i2 = fill_source(bids, k, q, i);
        assert(bids[i2].id != asks[j].id);
        assert(cents_of(bids[i2]) < cents_of(asks[j]));
    }
}

/// Matching keeps what a live book keeps, on the side it consumes and across the
/// two sides.
pub proof fn lemma_match_keeps(
    resting: Seq<Order>,
    other: Seq<Order>,
    taker: Side,
    limit: Option<Price>,
    taker_id: OrderId,
    remaining: nat,
    n: u64,
)
    requires
        side_ok(resting, opposite(taker), n),
        taker == Side::Buy ==> cross_ok(other, resting),
        taker == Side::Sell ==> cross_ok(resting, other),
    ensures
        ({
            let (ts, rest, left) = match_orders(resting, taker, limit, taker_id, remaining);
            &&& side_ok(rest, opposite(taker), n)
            &&& taker == Side::Buy ==> cross_ok(other, rest)
            &&& taker == Side::Sell ==> cross_ok(rest, other)
            &&& left <= remaining
        }),
    decreases resting.len(),
{
    if remaining == 0 || resting.len() == 0 {
    } else {
        let k = best_index(resting, opposite(taker));
        lemma_best_index_range(resting, opposite(taker));
        let m = resting[k];
        if crosses(taker, limit, m.price) {
            let q = min_nat(remaining, m.remaining as nat);
            lemma_fill_at_side_ok(resting, opposite(taker), n, k, q);
            if taker == Side::Buy {
                lemma_fill_at_cross_asks(other, resting, k, q);
            } else {
                lemma_fill_at_cross_bids(resting, other, k, q);
            }
            if q == m.remaining {
                assert(fill_at(resting, k, q) == resting.remove(k));
                lemma_match_keeps(
                    resting.remove(k),
                    other,
                    taker,
                    limit,
                    taker_id,
                    (remaining - q) as nat,
                    n,
                );
            }
        }
    }
}

/// Time priority on one side: of two orders at one price, the one ahead arrived
/// first (it carries the smaller sequence number); and every sequence number on the
/// side was handed out before `n`.
pub open spec fn time_ordered(s: Seq<Order>, n: int) -> bool {
    &&& forall|i: int, j: int|
        0 <= i < j < s.len() && cents_of(s[i]) == cents_of(s[j]) ==> (#[trigger] s[i]).sequence
            < (#[trigger] s[j]).sequence
    &&& forall|i: int| 0 <= i < s.len() ==> (#[trigger] s[i]).sequence < n
}

/// Taking an order out keeps time priority.
pub proof fn lemma_time_ordered_remove(s: Seq<Order>, n: int, k: int)
    requires
        time_ordered(s, n),
        0 <= k < s.len(),
    ensures
        time_ordered(s.remove(k), n),
{
    let r = s.remove(k);
    assert forall|i: int, j: int|
        0 <= i < j < r.len() && cents_of(r[i]) == cents_of(r[j]) implies (#[trigger] r[i]).sequence
        < (#[trigger] r[j]).sequence by {
        let i2 = if i < k { i } else { i + 1 };
        let j2 = if j < k { j } else { j + 1 };
        assert(r[i] == s[i2]);
        assert(r[j] == s[j2]);
    }
    assert forall|i: int| 0 <= i < r.len() implies (#[trigger] r[i]).sequence < n by {
        let i2 = if i < k { i } else { i + 1 };
        assert(r[i] == s[i2]);
    }
}

/// Changing the open quantity of an order in place keeps time priority.
pub proof fn lemma_time_ordered_shrink(s: Seq<Order>, n: int, k: int, r: Quantity)
    requires
        time_ordered(s, n),
        0 <= k < s.len(),
    ensures
        time_ordered(s.update(k, s[k].with_remaining(r)), n),
{
    let u = s.update(k, s[k].with_remaining(r));
    assert forall|i: int, j: int|
        0 <= i < j < u.len() && cents_of(u[i]) == cents_of(u[j]) implies (#[trigger] u[i]).sequence
        < (#[trigger] u[j]).sequence by {
        assert(cents_of(u[i]) == cents_of(s[i]) && u[i].sequence == s[i].sequence);
        assert(cents_of(u[j]) == cents_of(s[j]) && u[j].sequence == s[j].sequence);
    }
    assert forall|i: int| 0 <= i < u.len() implies (#[trigger] u[i]).sequence < n by {
        assert(u[i].sequence == s[i].sequence);
    }
}

/// Executing against one order keeps time priority.
pub proof fn lemma_time_ordered_fill(s: Seq<Order>, n: int, k: int, q: nat)
    requires
        time_ordered(s, n),
        0 <= k < s.len(),
        q <= s[k].remaining,
    ensures
        time_ordered(fill_at(s, k, q), n),
{
    if q == s[k].remaining {
        lemma_time_ordered_remove(s, n, k);
    } else {
        lemma_time_ordered_shrink(s, n, k, (s[k].remaining - q) as Quantity);
    }
}

/// Matching keeps time priority on the side it consumes.
pub proof fn lemma_match_time_ordered(
    resting: Seq<Order>,
    taker: Side,
    limit: Option<Price>,
    taker_id: OrderId,
    remaining: nat,
    n: int,
)
    requires
        time_ordered(resting, n),
    ensures
        time_ordered(match_orders(resting, taker, limit, taker_id, remaining).1, n),
    decreases resting.len(),
{
    if remaining == 0 || resting.len() == 0 {
    } else {
        let k = best_index(resting, opposite(taker));
        lemma_best_index_range(resting, opposite(taker));
        let m = resting[k];
        if crosses(taker, limit, m.price) {
            let q = min_nat(remaining, m.remaining as nat);
            lemma_time_ordered_fill(resting, n, k, q);
            if q == m.remaining {
                lemma_time_ordered_remove(resting, n, k);
                lemma_match_time_ordered(
                    resting.remove(k),
                    taker,
                    limit,
                    taker_id,
                    (remaining - q) as nat,
                    n,
                );
            }
        }
    }
}

/// An order newer than every order of a side, put at the back of its price level,
/// keeps time priority: within its level every order ahead of it is older, and
/// no order of its price stands behind it.
pub proof fn lemma_time_ordered_add(s: Seq<Order>, o: Order)
    requires
        sorted_by_price(s),
        time_ordered(s, o.sequence as int),
    ensures
        time_ordered(s.insert(level_end(s, cents_of(o)), o), o.sequence + 1),
{
    let k = level_end(s, cents_of(o));
    lemma_level_end(s, cents_of(o));
    let r = s.insert(k, o);
    assert forall|i: int, j: int|
        0 <= i < j < r.len() && cents_of(r[i]) == cents_of(r[j]) implies (#[trigger] r[i]).sequence
        < (#[trigger] r[j]).sequence by {
        if i < k {
            assert(r[i] == s[i]);
        } else if i > k {
            assert(r[i] == s[i - 1]);
        }
        if j < k {
            assert(r[j] == s[j]);
        } else if j > k {
            assert(r[j] == s[j - 1]);
        }
    }
    assert forall|i: int| 0 <= i < r.len() implies (#[trigger] r[i]).sequence < o.sequence + 1 by {
        if i < k {
            assert(r[i] == s[i]);
        } else if i > k {
            assert(r[i] == s[i - 1]);
        }
    }
}

/// When an incoming order is left open, matching stopped because the other side ran
/// out or its best order no longer crosses.
pub proof fn lemma_match_stops(
    resting: Seq<Order>,
    taker: Side,
    limit: Option<Price>,
    taker_id: OrderId,
    remaining: nat,
)
    ensures
        ({
            let (ts, rest, left) = match_orders(resting, taker, limit, taker_id, remaining);
            left > 0 ==> rest.len() == 0 || !crosses(
                taker,
                limit,
                rest[best_index(rest, opposite(taker))].price,
            )
        }),
    decreases resting.len(),
{
    if remaining == 0 || resting.len() == 0 {
    } else {
        let k = best_index(resting, opposite(taker));
        lemma_best_index_range(resting, opposite(taker));
        let m = resting[k];
        if crosses(taker, limit, m.price) {
            let q = min_nat(remaining, m.remaining as nat);
            if q == m.remaining {
                lemma_match_stops(
                    resting.remove(k),
                    taker,
                    limit,
                    taker_id,
                    (remaining - q) as nat,
                );
            }
        }
    }
}

/// A limit order left open can rest at its price without crossing what is left on
/// the other side.
pub proof fn lemma_rest_below_asks(rest: Seq<Order>, p: Price)
    requires
        sorted_by_price(rest),
        rest.len() == 0 || !crosses(Side::Buy, Some(p), rest[best_index(rest, Side::Sell)].price),
    ensures
        forall|j: int| 0 <= j < rest.len() ==> p.view_cents() < cents_of(#[trigger] rest[j]),
{
    if rest.len() > 0 {
        assert forall|j: int| 0 <= j < rest.len() implies p.view_cents() < cents_of(
            #[trigger] rest[j]) by {
            assert(cents_of(rest[0]) <= cents_of(rest[j]));
        }
    }
}

/// A limit sell left open can rest at its price without crossing what is left of the
/// bids.
pub proof fn lemma_rest_above_bids(rest: Seq<Order>, p: Price)
    requires
        sorted_by_price(rest),
        rest.len() == 0 || !crosses(Side::Sell, Some(p), rest[best_index(rest, Side::Buy)].price),
    ensures
        forall|j: int| 0 <= j < rest.len() ==> cents_of(#[trigger] rest[j]) < p.view_cents(),
{
    if rest.len() > 0 {
        lemma_level_start(rest, rest.len() - 1);
        assert forall|j: int| 0 <= j < rest.len() implies cents_of(#[trigger] rest[j])
            < p.view_cents() by {
            assert(cents_of(rest[j]) <= cents_of(rest[rest.len() - 1]));
        }
    }
}

/// Changing an order in place, under the same id, leaves every id where it was.
pub proof fn lemma_position_of_update(s: Seq<Order>, k: int, x: Order, id: OrderId)
    requires
        0 <= k < s.len(),
        x.id == s[k].id,
    ensures
        position_of(s.update(k, x), id) == position_of(s, id),
{
    let u = s.update(k, x);
    lemma_position_of(s, id);
    let p = position_of(s, id);
    if p >= 0 {
        assert forall|j: int| 0 <= j < p implies (#[trigger] u[j]).id != id by {
            assert(u[j].id == s[j].id);
        }
        lemma_position_of_found(u, id, p);
    } else {
        assert forall|j: int| 0 <= j < u.len() implies (#[trigger] u[j]).id != id by {
            assert(u[j].id == s[j].id);
        }
        lemma_position_of_absent(u, id);
    }
}

/// Taking out an order of a side with distinct ids takes out its id and nothing else.
pub proof fn lemma_find_remove(s: Seq<Order>, k: int, id: OrderId)
    requires
        0 <= k < s.len(),
        distinct_ids(s),
    ensures
        find(s.remove(k), id) == (if id == s[k].id {
            None
        } else {
            find(s, id)
        }),
{
    let r = s.remove(k);
    lemma_position_of(s, id);
    let p = position_of(s, id);
    if id == s[k].id {
        assert forall|j: int| 0 <= j < r.len() implies (#[trigger] r[j]).id != id by {
            if j < k {
                assert(r[j] == s[j]);
            } else {
                assert(r[j] == s[j + 1]);
            }
        }
        lemma_position_of_absent(r, id);
    } else if p >= 0 {
        let p2 = if p < k { p } else { p - 1 };
        assert(p != k);
        assert(r[p2] == s[p]);
        assert forall|j: int| 0 <= j < p2 implies (#[trigger] r[j]).id != id by {
            if j < k {
                assert(r[j] == s[j]);
            } else {
                assert(r[j] == s[j + 1]);
            }
        }
        lemma_position_of_found(r, id, p2);
    } else {
        assert forall|j: int| 0 <= j < r.len() implies (#[trigger] r[j]).id != id by {
            if j < k {
                assert(r[j] == s[j]);
            } else {
                assert(r[j] == s[j + 1]);
            }
        }
        lemma_position_of_absent(r, id);
    }
}

/// Adding an order under an id the side does not hold adds that id and nothing else.
pub proof fn lemma_find_insert(s: Seq<Order>, k: int, o: Order, id: OrderId)
    requires
        0 <= k <= s.len(),
        forall|j: int| 0 <= j < s.len() ==> (#[trigger] s[j]).id != o.id,
    ensures
        find(s.insert(k, o), id) == (if id == o.id {
            Some(o)
        } else {
            find(s, id)
        }),
{
    let r = s.insert(k, o);
    lemma_position_of(s, id);
    let p = position_of(s, id);
    if id == o.id {
        assert forall|j: int| 0 <= j < k implies (#[trigger] r[j]).id != id by {
            assert(r[j] == s[j]);
        }
        lemma_position_of_found(r, id, k);
    } else if p >= 0 {
        let p2 = if p < k { p } else { p + 1 };
        assert(r[p2] == s[p]);
        assert forall|j: int| 0 <= j < p2 implies (#[trigger] r[j]).id != id by {
            if j < k {
                assert(r[j] == s[j]);
            } else if j > k {
                assert(r[j] == s[j - 1]);
            }
        }
        lemma_position_of_found(r, id, p2);
    } else {
        assert forall|j: int| 0 <= j < r.len() implies (#[trigger] r[j]).id != id by {
            if j < k {
                assert(r[j] == s[j]);
            } else if j > k {
                assert(r[j] == s[j - 1]);
            }
        }
        lemma_position_of_absent(r, id);
    }
}

/// Executing part of an order leaves the locations as they were; executing all of
/// it drops its id.
pub proof fn lemma_fill_at_locations(b: BookView, side: Side, k: int, q: nat)
    requires
        0 <= k < b.side(side).len(),
        q <= b.side(side)[k].remaining,
        distinct_ids(b.side(side)),
        disjoint_ids(b.bids, b.asks),
    ensures
        b.with_side(side, fill_at(b.side(side), k, q)).locations() == (if q == b.side(side)[k].remaining {
            b.locations().remove(b.side(side)[k].id)
        } else {
            b.locations()
        }),
{
    let s = b.side(side);
    let b2 = b.with_side(side, fill_at(s, k, q));
    if q == s[k].remaining {
        let gone = s[k].id;
        assert forall|id: OrderId| #[trigger] find(b2.side(side), id) == (if id == gone {
            None
        } else {
            find(s, id)
        }) by {
            lemma_find_remove(s, k, id);
        }
        let other = b.side(opposite(side));
        lemma_position_of(other, gone);
        if position_of(other, gone) >= 0 {
            let j = position_of(other, gone);
            if side == Side::Buy {
                assert(b.bids[k].id != b.asks[j].id);
            } else {
                assert(b.bids[j].id != b.asks[k].id);
            }
        }
        assert(b2.locations() =~= b.locations().remove(gone));
    } else {
        let x = s[k].with_remaining((s[k].remaining - q) as Quantity);
        assert forall|id: OrderId| #[trigger] position_of(b2.side(side), id) == position_of(s, id) by {
            lemma_position_of_update(s, k, x, id);
        }
        assert forall|id: OrderId| #[trigger] find(b2.side(side), id) matches Some(o) ==> find(s, id)
            matches Some(o2) && o.price == o2.price by {
            lemma_position_of(s, id);
        }
        assert forall|id: OrderId| #[trigger] find(s, id) is Some ==> find(b2.side(side), id) is Some by {
        }
        assert(b2.locations() =~= b.locations());
    }
}

/// An order joining its price level under a fresh id adds exactly that id.
pub proof fn lemma_add_locations(b: BookView, o: Order)
    requires
        b.wf(),
        forall|j: int| 0 <= j < b.bids.len() ==> (#[trigger] b.bids[j]).id != o.id,
        forall|j: int| 0 <= j < b.asks.len() ==> (#[trigger] b.asks[j]).id != o.id,
    ensures
        b.add(o).locations() == b.locations().insert(o.id, (o.side, o.price)),
{
    let s = b.side(o.side);
    let k = level_end(s, cents_of(o));
    lemma_level_end(s, cents_of(o));
    let b2 = b.add(o);
    assert forall|id: OrderId| #[trigger] find(b2.side(o.side), id) == (if id == o.id {
        Some(o)
    } else {
        find(s, id)
    }) by {
        lemma_find_insert(s, k, o, id);
    }
    let other = b.side(opposite(o.side));
    lemma_position_of(other, o.id);
    if position_of(other, o.id) >= 0 {
        assert(other[position_of(other, o.id)].id != o.id);
    }
    assert(b2.locations() =~= b.locations().insert(o.id, (o.side, o.price)));
}

} // verus!
