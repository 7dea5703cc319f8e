use vstd::prelude::*;

use crate::order::Order;
use crate::text::{
    cents_text, decimal, decimal_string, pad_right, push_char, push_decimal, push_padded,
};
use crate::types::{OrderId, Price, Quantity, Side};

verus! {

/// Each side of the book is one sequence of orders, ordered as a walk over its price
/// levels from the lowest price to the highest, and within a level by arrival
/// (first in, first out).
#[derive(Debug)]
pub struct OrderBook {
    pub(crate) bids: Vec<Order>,
    pub(crate) asks: Vec<Order>,
}

/// The contents of a book: its bids and its asks, each in ascending price order and,
/// within one price, in arrival order.
pub struct BookView {
    pub bids: Seq<Order>,
    pub asks: Seq<Order>,
}

/// The price of an order, in cents.
pub open spec fn cents_of(o: Order) -> int {
    o.price.view_cents()
}

/// Prices never decrease along the sequence.
pub open spec fn sorted_by_price(s: Seq<Order>) -> bool {
    forall|i: int, j: int| 0 <= i <= j < s.len() ==> cents_of(s[i]) <= cents_of(s[j])
}

/// Every order of the sequence is on the given side.
pub open spec fn all_on_side(s: Seq<Order>, side: Side) -> bool {
    forall|i: int| 0 <= i < s.len() ==> (#[trigger] s[i]).side == side
}

/// The position just after the price level of `cents`: the first order priced
/// above `cents`, or the end. A new order at that price joins its level there.
pub open spec fn level_end(s: Seq<Order>, cents: int) -> int
    decreases s.len(),
{
    if s.len() == 0 {
        0
    } else if cents_of(s[0]) > cents {
        0
    } else {
        1 + level_end(s.drop_first(), cents)
    }
}

/// The first position of the price level that holds position `i`.
pub open spec fn level_start(s: Seq<Order>, i: int) -> int
    decreases i,
{
    if 0 < i < s.len() && cents_of(s[i - 1]) == cents_of(s[i]) {
        level_start(s, i - 1)
    } else {
        i
    }
}

/// The position of the order that has priority on a side: the oldest order at the
/// highest bid, or the oldest order at the lowest ask.
pub open spec fn best_index(s: Seq<Order>, side: Side) -> int {
    match side {
        Side::Buy => level_start(s, s.len() - 1),
        Side::Sell => 0,
    }
}

/// The first position of an order with the given id, or -1 when there is none.
pub open spec fn position_of(s: Seq<Order>, id: OrderId) -> int
    decreases s.len(),
{
    if s.len() == 0 {
        -1
    } else if s[0].id == id {
        0
    } else {
        let r = position_of(s.drop_first(), id);
        if r < 0 {
            -1
        } else {
            r + 1
        }
    }
}

/// The first order with the given id, if any.
pub open spec fn find(s: Seq<Order>, id: OrderId) -> Option<Order> {
    if position_of(s, id) >= 0 {
        Some(s[position_of(s, id)])
    } else {
        None
    }
}

/// The sum of the open quantities of the orders.
pub open spec fn open_volume(s: Seq<Order>) -> nat
    decreases s.len(),
{
    if s.len() == 0 {
        0
    } else {
        open_volume(s.drop_last()) + s.last().remaining as nat
    }
}

/// The side after `q` more units of the order at `k` were executed: the order
/// leaves once nothing of it is open.
pub open spec fn fill_at(s: Seq<Order>, k: int, q: nat) -> Seq<Order> {
    if q == s[k].remaining {
        s.remove(k)
    } else {
        s.update(k, s[k].with_remaining((s[k].remaining - q) as Quantity))
    }
}

/// One price level as the depth view shows it: its price, its open quantity and how
/// many orders it holds.
pub type LevelSummary = (Price, nat, nat);

/// The price levels of a side, in ascending price order.
pub open spec fn levels(s: Seq<Order>) -> Seq<LevelSummary>
    decreases s.len(),
{
    if s.len() == 0 {
        Seq::empty()
    } else {
        let l = levels(s.drop_last());
        let o = s.last();
        if l.len() > 0 && l.last().0 == o.price {
            l.update(l.len() - 1, (o.price, l.last().1 + o.remaining as nat, l.last().2 + 1))
        } else {
            l.push((o.price, o.remaining as nat, 1nat))
        }
    }
}

pub open spec fn min_depth(depth: nat, n: nat) -> nat {
    if depth <= n {
        depth
    } else {
        n
    }
}

/// The first `depth` levels of the asks: the lowest prices, ascending.
pub open spec fn shown_asks(asks: Seq<Order>, depth: nat) -> Seq<LevelSummary> {
    levels(asks).take(min_depth(depth, levels(asks).len()) as int)
}

/// The first `depth` levels of the bids: the highest prices, descending.
pub open spec fn shown_bids(bids: Seq<Order>, depth: nat) -> Seq<LevelSummary> {
    let l = levels(bids);
    Seq::new(min_depth(depth, l.len()), |j: int| l[l.len() - 1 - j])
}

/// One row of the depth view: the price as written (a price's text takes no field
/// width), the quantity left-aligned in ten columns, then the number of orders.
pub open spec fn depth_row(l: LevelSummary) -> Seq<char> {
    cents_text(l.0.view_cents() as nat) + seq![' '] + pad_right(decimal(l.1), 10)
        + seq![' '] + decimal(l.2) + seq!['\n']
}

pub open spec fn depth_rows(ls: Seq<LevelSummary>) -> Seq<char>
    decreases ls.len(),
{
    if ls.len() == 0 {
        Seq::empty()
    } else {
        depth_rows(ls.drop_last()) + depth_row(ls.last())
    }
}

/// The text of the depth view of a book.
pub open spec fn depth_text(b: BookView, depth: nat) -> Seq<char> {
    "\n========== ORDER BOOK ==========\n"@ + "ASKS\n"@ + "Price      Quantity   Orders\n"@
        + "-------------------------------\n"@ + depth_rows(shown_asks(b.asks, depth))
        + "-------------------------------\n"@ + "BIDS\n"@ + "Price      Quantity   Orders\n"@
        + "-------------------------------\n"@ + depth_rows(shown_bids(b.bids, depth))
        + "===============================\n"@
}

/// A price level under construction: its price, open quantity and order count.
struct LevelRow {
    price: Price,
    quantity: u128,
    orders: usize,
}

spec fn row_view(r: LevelRow) -> LevelSummary {
    (r.price, r.quantity as nat, r.orders as nat)
}

impl BookView {
    pub open spec fn side(self, side: Side) -> Seq<Order> {
        match side {
            Side::Buy => self.bids,
            Side::Sell => self.asks,
        }
    }

    pub open spec fn with_side(self, side: Side, s: Seq<Order>) -> BookView {
        match side {
            Side::Buy => BookView { bids: s, asks: self.asks },
            Side::Sell => BookView { bids: self.bids, asks: s },
        }
    }

    /// Both sides are in price order, and each holds only orders of its side.
    pub open spec fn wf(self) -> bool {
        &&& sorted_by_price(self.bids)
        &&& sorted_by_price(self.asks)
        &&& all_on_side(self.bids, Side::Buy)
        &&& all_on_side(self.asks, Side::Sell)
    }

    pub open spec fn best_bid(self) -> Option<Price> {
        if self.bids.len() == 0 {
            None
        } else {
            Some(self.bids.last().price)
        }
    }

    pub open spec fn best_ask(self) -> Option<Price> {
        if self.asks.len() == 0 {
            None
        } else {
            Some(self.asks[0].price)
        }
    }

    /// Best ask minus best bid, in cents, when both sides hold orders.
    pub open spec fn spread(self) -> Option<int> {
        match (self.best_ask(), self.best_bid()) {
            (Some(a), Some(b)) => Some(a.view_cents() - b.view_cents()),
            _ => None,
        }
    }

    /// Where each resting order stands: its side and its price level, by id.
    pub open spec fn locations(self) -> Map<OrderId, (Side, Price)> {
        Map::new(
            |id: OrderId| find(self.bids, id) is Some || find(self.asks, id) is Some,
            |id: OrderId|
                match find(self.bids, id) {
                    Some(o) => (Side::Buy, o.price),
                    None => (Side::Sell, find(self.asks, id)->0.price),
                },
        )
    }

    /// The book after `o` joined the back of its price level on its side.
    pub open spec fn add(self, o: Order) -> BookView {
        let s = self.side(o.side);
        self.with_side(o.side, s.insert(level_end(s, cents_of(o)), o))
    }

    /// What a cancellation of `id` leaves and what it takes: the first order with
    /// that id among the bids, else among the asks.
    pub open spec fn cancel(self, id: OrderId) -> (BookView, Option<Order>) {
        let kb = position_of(self.bids, id);
        let ka = position_of(self.asks, id);
        if kb >= 0 {
            (BookView { bids: self.bids.remove(kb), asks: self.asks }, Some(self.bids[kb]))
        } else if ka >= 0 {
            (BookView { bids: self.bids, asks: self.asks.remove(ka) }, Some(self.asks[ka]))
        } else {
            (self, None)
        }
    }
}

impl View for OrderBook {
    type V = BookView;

    closed spec fn view(&self) -> BookView {
        BookView { bids: self.bids@, asks: self.asks@ }
    }
}

pub proof fn lemma_level_end(s: Seq<Order>, cents: int)
    requires
        sorted_by_price(s),
    ensures
        0 <= level_end(s, cents) <= s.len(),
        forall|i: int| 0 <= i < level_end(s, cents) ==> cents_of(#[trigger] s[i]) <= cents,
        forall|i: int| level_end(s, cents) <= i < s.len() ==> cents_of(#[trigger] s[i]) > cents,
    decreases s.len(),
{
    if s.len() > 0 && cents_of(s[0]) <= cents {
        let t = s.drop_first();
        assert(sorted_by_price(t));
        lemma_level_end(t, cents);
        assert forall|i: int| 0 <= i < level_end(s, cents) implies cents_of(#[trigger] s[i])
            <= cents by {
            if i > 0 {
                assert(s[i] == t[i - 1]);
            }
        }
        assert forall|i: int| level_end(s, cents) <= i < s.len() implies cents_of(#[trigger] s[i])
            > cents by {
            assert(s[i] == t[i - 1]);
        }
    }
}

pub proof fn lemma_level_start(s: Seq<Order>, i: int)
    requires
        0 <= i < s.len(),
        sorted_by_price(s),
    ensures
        0 <= level_start(s, i) <= i,
        cents_of(s[level_start(s, i)]) == cents_of(s[i]),
        forall|j: int| 0 <= j < level_start(s, i) ==> cents_of(#[trigger] s[j]) < cents_of(s[i]),
    decreases i,
{
    if 0 < i && cents_of(s[i - 1]) == cents_of(s[i]) {
        lemma_level_start(s, i - 1);
    }
}

pub proof fn lemma_position_of(s: Seq<Order>, id: OrderId)
    ensures
        -1 <= position_of(s, id) < s.len(),
        position_of(s, id) >= 0 ==> s[position_of(s, id)].id == id,
        forall|j: int|
            0 <= j < s.len() && (position_of(s, id) < 0 || j < position_of(s, id)) ==> (#[trigger] s[j]).id
                != id,
    decreases s.len(),
{
    if s.len() > 0 && s[0].id != id {
        let t = s.drop_first();
        lemma_position_of(t, id);
        assert forall|j: int|
            0 <= j < s.len() && (position_of(s, id) < 0 || j < position_of(s, id)) implies (
            #[trigger] s[j]).id != id by {
            if j > 0 {
                assert(s[j] == t[j - 1]);
            }
        }
    }
}

/// The first match found by a scan is what `position_of` names.
pub proof fn lemma_position_of_found(s: Seq<Order>, id: OrderId, k: int)
    requires
        0 <= k < s.len(),
        s[k].id == id,
        forall|j: int| 0 <= j < k ==> (#[trigger] s[j]).id != id,
    ensures
        position_of(s, id) == k,
{
    lemma_position_of(s, id);
    if position_of(s, id) < 0 || position_of(s, id) > k {
        assert(s[k].id != id);
    }
    if 0 <= position_of(s, id) < k {
        assert(s[position_of(s, id)].id != id);
    }
}

pub proof fn lemma_position_of_absent(s: Seq<Order>, id: OrderId)
    requires
        forall|j: int| 0 <= j < s.len() ==> (#[trigger] s[j]).id != id,
    ensures
        position_of(s, id) == -1,
{
    lemma_position_of(s, id);
    if position_of(s, id) >= 0 {
        assert(s[position_of(s, id)].id == id);
    }
}

pub proof fn lemma_open_volume_push(s: Seq<Order>, o: Order)
    ensures
        open_volume(s.push(o)) == open_volume(s) + o.remaining,
{
    assert(s.push(o).drop_last() =~= s);
}

/// Removing from a sorted side keeps it sorted.
pub proof fn lemma_sorted_remove(s: Seq<Order>, k: int)
    requires
        sorted_by_price(s),
        0 <= k < s.len(),
    ensures
        sorted_by_price(s.remove(k)),
{
    let r = s.remove(k);
    assert forall|i: int, j: int| 0 <= i <= j < r.len() implies cents_of(r[i]) <= cents_of(
        r[j]) by {
        let i2 = if i < k { i } else { i + 1 };
        let j2 = if j < k { j } else { j + 1 };
        assert(r[i] == s[i2]);
        assert(r[j] == s[j2]);
    }
}

/// Removing an order keeps a side sorted and on its side.
pub proof fn lemma_remove_wf(s: Seq<Order>, side: Side, k: int)
    requires
        sorted_by_price(s),
        all_on_side(s, side),
        0 <= k < s.len(),
    ensures
        sorted_by_price(s.remove(k)),
        all_on_side(s.remove(k), side),
{
    lemma_sorted_remove(s, k);
    let r = s.remove(k);
    assert forall|i: int| 0 <= i < r.len() implies (#[trigger] r[i]).side == side by {
        if i < k {
            assert(r[i] == s[i]);
        } else {
            assert(r[i] == s[i + 1]);
        }
    }
}

/// Executing part of an order keeps the side sorted and on its side.
pub proof fn lemma_fill_at_wf(s: Seq<Order>, side: Side, k: int, q: nat)
    requires
        sorted_by_price(s),
        all_on_side(s, side),
        0 <= k < s.len(),
        q <= s[k].remaining,
    ensures
        sorted_by_price(fill_at(s, k, q)),
        all_on_side(fill_at(s, k, q), side),
{
    if q == s[k].remaining {
        lemma_remove_wf(s, side, k);
    } else {
        let r = fill_at(s, k, q);
        assert forall|i: int, j: int| 0 <= i <= j < r.len() implies cents_of(r[i]) <= cents_of(
            r[j]) by {
            assert(cents_of(r[i]) == cents_of(s[i]));
            assert(cents_of(r[j]) == cents_of(s[j]));
        }
        assert forall|i: int| 0 <= i < r.len() implies (#[trigger] r[i]).side == side by {
            assert(r[i].side == s[i].side);
        }
    }
}

/// Joining a sorted side at the back of the order's price level keeps it sorted.
pub proof fn lemma_insert_at_level_end(s: Seq<Order>, side: Side, o: Order)
    requires
        sorted_by_price(s),
        all_on_side(s, side),
        o.side == side,
    ensures
        sorted_by_price(s.insert(level_end(s, cents_of(o)), o)),
        all_on_side(s.insert(level_end(s, cents_of(o)), o), side),
{
    let k = level_end(s, cents_of(o));
    lemma_level_end(s, cents_of(o));
    let r = s.insert(k, o);
    assert forall|i: int, j: int| 0 <= i <= j < r.len() implies cents_of(r[i]) <= cents_of(
        r[j]) by {
        if i < k {
            assert(r[i] == s[i]);
        } else if i > k {
            assert(r[i] == s[i - 1]);
        }
        if j < k {
            assert(r[j] == s[j]);
        } else if j > k {
            assert(r[j] == s[j - 1]);
        }
    }
    assert forall|i: int| 0 <= i < r.len() implies (#[trigger] r[i]).side == side by {
        if i < k {
            assert(r[i] == s[i]);
        } else if i > k {
            assert(r[i] == s[i - 1]);
        }
    }
}

impl Default for OrderBook {
    fn default() -> (book: Self)
        ensures
            book@.bids == Seq::<Order>::empty(),
            book@.asks == Seq::<Order>::empty(),
    {
        OrderBook { bids: Vec::new(), asks: Vec::new() }
    }
}

impl OrderBook {
    pub open spec fn wf(&self) -> bool {
        self@.wf()
    }

    pub fn new() -> (book: Self)
        ensures
            book@.bids == Seq::<Order>::empty(),
            book@.asks == Seq::<Order>::empty(),
            book.wf(),
    {
        Self::default()
    }

    /// Puts `order` at the back of its price level, on its own side.
    pub fn add_order(&mut self, order: Order)
        requires
            old(self).wf(),
        ensures
            final(self)@ == old(self)@.add(order),
            final(self).wf(),
    {
        proof {
            lemma_insert_at_level_end(old(self)@.side(order.side), order.side, order);
        }
        match order.side {
            Side::Buy => {
                let k = Self::level_end_position(&self.bids, order.price);
                self.bids.insert(k, order);
            },
            Side::Sell => {
                let k = Self::level_end_position(&self.asks, order.price);
                self.asks.insert(k, order);
            },
        }
    }

    fn level_end_position(levels: &Vec<Order>, price: Price) -> (k: usize)
        ensures
            k == level_end(levels@, price.view_cents()),
            k <= levels@.len(),
    {
        let cents = price.cents();
        let mut k: usize = 0;
        assert(levels@.skip(0) =~= levels@);
        while k < levels.len() && levels[k].price.cents() <= cents
            invariant
                0 <= k <= levels@.len(),
                cents == price.view_cents(),
                level_end(levels@, cents as int) == k + level_end(levels@.skip(k as int), cents as int),
            decreases levels@.len() - k,
        {
            assert(levels@.skip(k as int).drop_first() =~= levels@.skip(k + 1));
            k = k + 1;
        }
        if k < levels.len() {
            assert(levels@.skip(k as int)[0] == levels@[k as int]);
        }
        k
    }

    /// The highest price among the bids, none when there is no bid.
    pub fn best_bid(&self) -> (res: Option<Price>)
        ensures
            res == self@.best_bid(),
            res is None <==> self@.bids.len() == 0,
            res matches Some(p) ==> exists|j: int|
                0 <= j < self@.bids.len() && (#[trigger] self@.bids[j]).price == p,
            self.wf() ==> (res matches Some(p) ==> forall|j: int|
                0 <= j < self@.bids.len() ==> cents_of(#[trigger] self@.bids[j]) <= p.view_cents()),
    {
        if self.bids.len() == 0 {
            None
        } else {
            Some(self.bids[self.bids.len() - 1].price)
        }
    }

    /// The lowest price among the asks, none when there is no ask.
    pub fn best_ask(&self) -> (res: Option<Price>)
        ensures
            res == self@.best_ask(),
            res is None <==> self@.asks.len() == 0,
            res matches Some(p) ==> exists|j: int|
                0 <= j < self@.asks.len() && (#[trigger] self@.asks[j]).price == p,
            self.wf() ==> (res matches Some(p) ==> forall|j: int|
                0 <= j < self@.asks.len() ==> p.view_cents() <= cents_of(#[trigger] self@.asks[j])),
    {
        if self.asks.len() == 0 {
            None
        } else {
            Some(self.asks[0].price)
        }
    }

    /// Best ask minus best bid, in cents, when both sides hold orders.
    pub fn spread(&self) -> (res: Option<i64>)
        ensures
            res is Some == self@.spread() is Some,
            res matches Some(d) ==> d == self@.spread()->0,
    {
        let ask = match self.best_ask() {
            Some(p) => p,
            None => return None,
        };
        let bid = match self.best_bid() {
            Some(p) => p,
            None => return None,
        };
        let a = ask.cents();
        let b = bid.cents();
        Some(a - b)
    }

    /// Takes the order with this id out of the book: the first one among the bids,
    /// else the first one among the asks.
    pub fn cancel(&mut self, order_id: OrderId) -> (res: Option<Order>)
        requires
            old(self).wf(),
        ensures
            (final(self)@, res) == old(self)@.cancel(order_id),
            final(self).wf(),
    {
        proof {
            lemma_position_of(old(self)@.bids, order_id);
            lemma_position_of(old(self)@.asks, order_id);
            if position_of(old(self)@.bids, order_id) >= 0 {
                lemma_remove_wf(old(self)@.bids, Side::Buy, position_of(old(self)@.bids, order_id));
            }
            if position_of(old(self)@.asks, order_id) >= 0 {
                lemma_remove_wf(old(self)@.asks, Side::Sell, position_of(old(self)@.asks, order_id));
            }
        }
        let r = Self::cancel_from_side(&mut self.bids, order_id);
        if r.is_some() {
            return r;
        }
        Self::cancel_from_side(&mut self.asks, order_id)
    }

    fn cancel_from_side(levels: &mut Vec<Order>, order_id: OrderId) -> (res: Option<Order>)
        ensures
            position_of(old(levels)@, order_id) >= 0 ==> res == Some(
                old(levels)@[position_of(old(levels)@, order_id)],
            ) && final(levels)@ == old(levels)@.remove(position_of(old(levels)@, order_id)),
            position_of(old(levels)@, order_id) < 0 ==> res is None && final(levels)@ == old(
                levels,
            )@,
    {
        let mut i: usize = 0;
        while i < levels.len()
            invariant
                0 <= i <= levels@.len(),
                levels@ == old(levels)@,
                forall|j: int| 0 <= j < i ==> (#[trigger] levels@[j]).id != order_id,
            decreases levels@.len() - i,
        {
            if levels[i].id == order_id {
                proof {
                    lemma_position_of_found(levels@, order_id, i as int);
                }
                let cancelled = levels.remove(i);
                return Some(cancelled);
            }
            i = i + 1;
        }
        proof {
            lemma_position_of_absent(levels@, order_id);
        }
        None
    }

    /// The position of the order `order_id` on one side, known to rest there at
    /// `price`: a binary search finds where that price level starts, then the level is
    /// walked in arrival order.
    pub(crate) fn position_at_level(&self, side: Side, price: Price, order_id: OrderId) -> (k:
        usize)
        requires
            self.wf(),
            find(self@.side(side), order_id) matches Some(o) && o.price == price,
        ensures
            k == position_of(self@.side(side), order_id),
            k < self@.side(side).len(),
    {
        let levels = match side {
            Side::Buy => &self.bids,
            Side::Sell => &self.asks,
        };
        let ghost s = levels@;
        let ghost target = position_of(s, order_id);
        proof {
            lemma_position_of(s, order_id);
        }
        let cents = price.cents();
        // the first position priced at or above `price`
        let mut lo: usize = 0;
        let mut hi: usize = levels.len();
        while lo < hi
            invariant
                0 <= lo <= hi <= s.len(),
                s == levels@,
                sorted_by_price(s),
                cents == price.view_cents(),
                forall|j: int| 0 <= j < lo ==> cents_of(#[trigger] s[j]) < cents,
                forall|j: int| hi <= j < s.len() ==> cents_of(#[trigger] s[j]) >= cents,
            decreases hi - lo,
        {
            let mid = lo + (hi - lo) / 2;
            if levels[mid].price.cents() < cents {
                proof {
                    assert forall|j: int| 0 <= j <= mid implies cents_of(#[trigger] s[j]) < cents by {
                        assert(cents_of(s[j]) <= cents_of(s[mid as int]));
                    }
                }
                lo = mid + 1;
            } else {
                proof {
                    assert forall|j: int| mid <= j < s.len() implies cents_of(#[trigger] s[j])
                        >= cents by {
                        assert(cents_of(s[mid as int]) <= cents_of(s[j]));
                    }
                }
                hi = mid;
            }
        }
        proof {
            assert(cents_of(s[target]) == cents);
            if target < lo {
                assert(cents_of(s[target]) < cents);
            }
        }
        // the order is the first of the level that carries its id
        let mut k = lo;
        while levels[k].id != order_id
            invariant
                lo <= k <= target,
                s == levels@,
                s.len() == levels.len(),
                sorted_by_price(s),
                0 <= target < s.len(),
                s[target].id == order_id,
                forall|j: int| 0 <= j < target ==> (#[trigger] s[j]).id != order_id,
            decreases target - k,
        {
            proof {
                if k == target {
                    assert(levels@[k as int].id == order_id);
                }
            }
            k = k + 1;
        }
        k
    }

    /// How many orders rest on one side.
    pub(crate) fn side_len(&self, side: Side) -> (n: usize)
        ensures
            n == self@.side(side).len(),
    {
        match side {
            Side::Buy => self.bids.len(),
            Side::Sell => self.asks.len(),
        }
    }

    /// The order at position `k` of one side.
    pub(crate) fn order_at(&self, side: Side, k: usize) -> (o: Order)
        requires
            k < self@.side(side).len(),
        ensures
            o == self@.side(side)[k as int],
    {
        match side {
            Side::Buy => self.bids[k],
            Side::Sell => self.asks[k],
        }
    }

    /// The position of the order with priority on a non-empty side.
    pub(crate) fn best_position(&self, side: Side) -> (k: usize)
        requires
            self.wf(),
            self@.side(side).len() > 0,
        ensures
            k == best_index(self@.side(side), side),
            k < self@.side(side).len(),
    {
        match side {
            Side::Sell => 0,
            Side::Buy => {
                let last = self.bids.len() - 1;
                let top = self.bids[last].price.cents();
                let mut k = last;
                while k > 0 && self.bids[k - 1].price.cents() == top
                    invariant
                        k <= last,
                        last == self@.bids.len() - 1,
                        top == cents_of(self@.bids[last as int]),
                        cents_of(self@.bids[k as int]) == top,
                        level_start(self@.bids, last as int) == level_start(self@.bids, k as int),
                    decreases k,
                {
                    k = k - 1;
                }
                k
            },
        }
    }

    /// Sets the open quantity of the order at position `k` of one side.
    pub(crate) fn set_remaining(&mut self, side: Side, k: usize, r: Quantity)
        requires
            old(self).wf(),
            k < old(self)@.side(side).len(),
        ensures
            final(self)@ == old(self)@.with_side(
                side,
                old(self)@.side(side).update(k as int, old(self)@.side(side)[k as int].with_remaining(r)),
            ),
            final(self).wf(),
    {
        let ghost s = old(self)@.side(side);
        let ghost u = s.update(k as int, s[k as int].with_remaining(r));
        proof {
            assert forall|i: int, j: int| 0 <= i <= j < u.len() implies cents_of(u[i]) <= cents_of(
                u[j]) by {
                assert(cents_of(u[i]) == cents_of(s[i]));
                assert(cents_of(u[j]) == cents_of(s[j]));
            }
            assert forall|i: int| 0 <= i < u.len() implies (#[trigger] u[i]).side == side by {
                assert(u[i].side == s[i].side);
            }
        }
        match side {
            Side::Buy => {
                let o = self.bids[k];
                self.bids.set(k, Order { remaining: r, ..o });
            },
            Side::Sell => {
                let o = self.asks[k];
                self.asks.set(k, Order { remaining: r, ..o });
            },
        }
    }

    /// Takes the order at position `k` out of one side.
    pub(crate) fn remove_at(&mut self, side: Side, k: usize) -> (o: Order)
        requires
            old(self).wf(),
            k < old(self)@.side(side).len(),
        ensures
            o == old(self)@.side(side)[k as int],
            final(self)@ == old(self)@.with_side(side, old(self)@.side(side).remove(k as int)),
            final(self).wf(),
    {
        proof {
            lemma_remove_wf(old(self)@.side(side), side, k as int);
        }
        match side {
            Side::Buy => self.bids.remove(k),
            Side::Sell => self.asks.remove(k),
        }
    }

    /// Executes `q` units of the order at position `k`; it leaves the book once
    /// nothing of it is open.
    pub(crate) fn fill(&mut self, side: Side, k: usize, q: Quantity)
        requires
            old(self).wf(),
            k < old(self)@.side(side).len(),
            q <= old(self)@.side(side)[k as int].remaining,
        ensures
            final(self)@ == old(self)@.with_side(side, fill_at(old(self)@.side(side), k as int, q as nat)),
            final(self).wf(),
    {
        let o = self.order_at(side, k);
        if q == o.remaining {
            self.remove_at(side, k);
        } else {
            self.set_remaining(side, k, o.remaining - q);
        }
    }

    /// The depth view: the `depth` lowest ask levels, then the `depth` highest bid
    /// levels, each with its open quantity and order count.
    pub fn format_depth(&self, depth: usize) -> (out: String)
        requires
            forall|j: int|
                0 <= j < shown_asks(self@.asks, depth as nat).len() ==> (#[trigger] shown_asks(
                    self@.asks,
                    depth as nat,
                )[j]).1 <= u64::MAX,
            forall|j: int|
                0 <= j < shown_bids(self@.bids, depth as nat).len() ==> (#[trigger] shown_bids(
                    self@.bids,
                    depth as nat,
                )[j]).1 <= u64::MAX,
        ensures
            out@ == depth_text(self@, depth as nat),
    {
        let ask_levels = Self::collect_levels(&self.asks);
        let bid_levels = Self::collect_levels(&self.bids);
        let mut output = String::new();
        output.append("\n========== ORDER BOOK ==========\n");
        output.append("ASKS\n");
        output.append("Price      Quantity   Orders\n");
        output.append("-------------------------------\n");
        let ghost head = output@;
        let shown = if depth <= ask_levels.len() { depth } else { ask_levels.len() };
        let mut j: usize = 0;
        while j < shown
            invariant
                0 <= j <= shown,
                shown == min_depth(depth as nat, levels(self@.asks).len()),
                ask_levels@.map_values(|r: LevelRow| row_view(r)) == levels(self@.asks),
                output@ == head + depth_rows(shown_asks(self@.asks, depth as nat).take(j as int)),
            decreases shown - j,
        {
            let ghost l = shown_asks(self@.asks, depth as nat);
            proof {
                assert(l.take(j + 1).drop_last() =~= l.take(j as int));
                assert(l[j as int] == row_view(ask_levels@[j as int]));
            }
            Self::push_row(&mut output, &ask_levels[j]);
            j = j + 1;
        }
        proof {
            let l = shown_asks(self@.asks, depth as nat);
            assert(l.take(shown as int) =~= l);
        }
        output.append("-------------------------------\n");
        output.append("BIDS\n");
        output.append("Price      Quantity   Orders\n");
        output.append("-------------------------------\n");
        let ghost middle = output@;
        let n = bid_levels.len();
        let shown = if depth <= n { depth } else { n };
        let mut j: usize = 0;
        while j < shown
            invariant
                0 <= j <= shown,
                shown <= n,
                n == bid_levels@.len(),
                shown == min_depth(depth as nat, levels(self@.bids).len()),
                bid_levels@.map_values(|r: LevelRow| row_view(r)) == levels(self@.bids),
                output@ == middle + depth_rows(shown_bids(self@.bids, depth as nat).take(j as int)),
            decreases shown - j,
        {
            let ghost l = shown_bids(self@.bids, depth as nat);
            proof {
                assert(l.take(j + 1).drop_last() =~= l.take(j as int));
                assert(l[j as int] == row_view(bid_levels@[n - 1 - j]));
            }
            Self::push_row(&mut output, &bid_levels[n - 1 - j]);
            j = j + 1;
        }
        proof {
            let l = shown_bids(self@.bids, depth as nat);
            assert(l.take(shown as int) =~= l);
        }
        output.append("===============================\n");
        assert(output@ =~= depth_text(self@, depth as nat));
        output
    }

    fn push_row(output: &mut String, row: &LevelRow)
        ensures
            final(output)@ == old(output)@ + depth_row(row_view(*row)),
    {
        let price = row.price.to_string();
        output.append(price.as_str());
        push_char(output, ' ');
        let quantity = decimal_string(row.quantity);
        push_padded(output, quantity.as_str(), 10);
        push_char(output, ' ');
        push_decimal(output, row.orders as u128);
        push_char(output, '\n');
        assert(final(output)@ =~= old(output)@ + depth_row(row_view(*row)));
    }

    /// The price levels of a side, summed up in ascending price order.
    fn collect_levels(side: &Vec<Order>) -> (rows: Vec<LevelRow>)
        ensures
            rows@.map_values(|r: LevelRow| row_view(r)) == levels(side@),
    {
        let mut rows: Vec<LevelRow> = Vec::new();
        let mut i: usize = 0;
        while i < side.len()
            invariant
                0 <= i <= side@.len(),
                rows@.map_values(|r: LevelRow| row_view(r)) == levels(side@.take(i as int)),
                forall|j: int|
                    0 <= j < rows@.len() ==> (#[trigger] rows@[j]).orders <= i && rows@[j].quantity
                        <= rows@[j].orders * (u64::MAX as int),
            decreases side@.len() - i,
        {
            let o = side[i];
            let ghost pre = rows@;
            proof {
                assert(side@.take(i + 1).drop_last() =~= side@.take(i as int));
                assert(side@.take(i + 1).last() == o);
            }
            let n = rows.len();
            if n > 0 && rows[n - 1].price == o.price {
                let last = &rows[n - 1];
                let orders = last.orders;
                let quantity = last.quantity;
                proof {
                    assert(quantity + o.remaining <= (orders + 1) * (u64::MAX as int))
                        by (nonlinear_arith)
                        requires
                            quantity <= orders * (u64::MAX as int),
                            o.remaining <= u64::MAX,
                    ;
                    assert((orders + 1) * (u64::MAX as int) <= (usize::MAX as int) * (
                    u64::MAX as int)) by (nonlinear_arith)
                        requires
                            orders + 1 <= usize::MAX,
                    ;
                    assert((usize::MAX as int) * (u64::MAX as int) <= u128::MAX) by (
                    nonlinear_arith)
                        requires
                            usize::MAX <= u64::MAX,
                    ;
                }
                rows.set(
                    n - 1,
                    LevelRow {
                        price: o.price,
                        quantity: quantity + o.remaining as u128,
                        orders: orders + 1,
                    },
                );
            } else {
                rows.push(LevelRow { price: o.price, quantity: o.remaining as u128, orders: 1 });
            }
            proof {
                assert(rows@.map_values(|r: LevelRow| row_view(r)) =~= levels(
                    side@.take(i + 1),
                ));
            }
            i = i + 1;
        }
        assert(side@.take(side@.len() as int) =~= side@);
        rows
    }

    /// Whether the open volume of one side fits in a `u64`.
    pub fn volume_in_range(&self, side: Side) -> (b: bool)
        ensures
            b == (open_volume(self@.side(side)) <= u64::MAX),
    {
        let levels = match side {
            Side::Buy => &self.bids,
            Side::Sell => &self.asks,
        };
        let mut total: u64 = 0;
        let mut i: usize = 0;
        while i < levels.len()
            invariant
                0 <= i <= levels@.len(),
                levels@ == self@.side(side),
                total == open_volume(levels@.take(i as int)),
            decreases levels@.len() - i,
        {
            proof {
                lemma_open_volume_push(levels@.take(i as int), levels@[i as int]);
                assert(levels@.take(i as int).push(levels@[i as int]) =~= levels@.take(i + 1));
                lemma_open_volume_prefix(levels@, i + 1);
            }
            match total.checked_add(levels[i].remaining) {
                Some(t) => total = t,
                None => return false,
            }
            i = i + 1;
        }
        assert(levels@.take(levels@.len() as int) =~= levels@);
        true
    }

    /// Whether every level that `format_depth(depth)` shows holds an open quantity
    /// that fits in a `u64`.
    pub fn depth_in_range(&self, depth: usize) -> (b: bool)
        ensures
            b == ((forall|j: int|
                0 <= j < shown_asks(self@.asks, depth as nat).len() ==> (#[trigger] shown_asks(
                    self@.asks,
                    depth as nat,
                )[j]).1 <= u64::MAX) && (forall|j: int|
                0 <= j < shown_bids(self@.bids, depth as nat).len() ==> (#[trigger] shown_bids(
                    self@.bids,
                    depth as nat,
                )[j]).1 <= u64::MAX)),
    {
        let ask_levels = Self::collect_levels(&self.asks);
        let bid_levels = Self::collect_levels(&self.bids);
        let shown = if depth <= ask_levels.len() { depth } else { ask_levels.len() };
        let mut j: usize = 0;
        while j < shown
            invariant
                0 <= j <= shown,
                shown == min_depth(depth as nat, levels(self@.asks).len()),
                ask_levels@.map_values(|r: LevelRow| row_view(r)) == levels(self@.asks),
                forall|i: int| 0 <= i < j ==> (#[trigger] shown_asks(self@.asks, depth as nat)[i]).1
                    <= u64::MAX,
            decreases shown - j,
        {
            assert(shown_asks(self@.asks, depth as nat)[j as int] == row_view(ask_levels@[j as int]));
            if ask_levels[j].quantity > 0xffff_ffff_ffff_ffff {
                return false;
            }
            j = j + 1;
        }
        let n = bid_levels.len();
        let shown = if depth <= n { depth } else { n };
        let mut j: usize = 0;
        while j < shown
            invariant
                0 <= j <= shown,
                shown <= n,
                n == bid_levels@.len(),
                shown == min_depth(depth as nat, levels(self@.bids).len()),
                bid_levels@.map_values(|r: LevelRow| row_view(r)) == levels(self@.bids),
                forall|i: int| 0 <= i < j ==> (#[trigger] shown_bids(self@.bids, depth as nat)[i]).1
                    <= u64::MAX,
            decreases shown - j,
        {
            assert(shown_bids(self@.bids, depth as nat)[j as int] == row_view(
                bid_levels@[n - 1 - j],
            ));
            if bid_levels[n - 1 - j].quantity > 0xffff_ffff_ffff_ffff {
                return false;
            }
            j = j + 1;
        }
        true
    }

    /// How many orders rest in the book.
    pub fn total_orders(&self) -> (n: usize)
        requires
            self@.bids.len() + self@.asks.len() <= usize::MAX,
        ensures
            n == self@.bids.len() + self@.asks.len(),
    {
        self.bids.len() + self.asks.len()
    }

    /// The open quantity resting on one side.
    pub fn total_volume(&self, side: Side) -> (v: Quantity)
        requires
            open_volume(self@.side(side)) <= u64::MAX,
        ensures
            v == open_volume(self@.side(side)),
    {
        let levels = match side {
            Side::Buy => &self.bids,
            Side::Sell => &self.asks,
        };
        Self::side_volume(levels)
    }

    fn side_volume(levels: &Vec<Order>) -> (v: Quantity)
        requires
            open_volume(levels@) <= u64::MAX,
        ensures
            v == open_volume(levels@),
    {
        let mut total: Quantity = 0;
        let mut i: usize = 0;
        while i < levels.len()
            invariant
                0 <= i <= levels@.len(),
                open_volume(levels@) <= u64::MAX,
                total == open_volume(levels@.take(i as int)),
            decreases levels@.len() - i,
        {
            proof {
                lemma_open_volume_push(levels@.take(i as int), levels@[i as int]);
                assert(levels@.take(i as int).push(levels@[i as int]) =~= levels@.take(i + 1));
                lemma_open_volume_prefix(levels@, i + 1);
            }
            total = total + levels[i].remaining;
            i = i + 1;
        }
        assert(levels@.take(levels@.len() as int) =~= levels@);
        total
    }
}

/// The open volume of a prefix never exceeds that of the whole side.
pub proof fn lemma_open_volume_prefix(s: Seq<Order>, n: int)
    requires
        0 <= n <= s.len(),
    ensures
        open_volume(s.take(n)) <= open_volume(s),
    decreases s.len(),
{
    if n < s.len() {
        assert(s.drop_last().take(n) =~= s.take(n));
        lemma_open_volume_prefix(s.drop_last(), n);
    } else {
        assert(s.take(n) =~= s);
    }
}

} // verus!
