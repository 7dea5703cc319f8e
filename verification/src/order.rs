use vstd::prelude::*;

use crate::types::{OrderId, Price, Quantity, Side};

verus! {

/// A limit order: `quantity` is what was asked for, `remaining` what is still open.
#[derive(Debug, Clone, Copy, PartialEq, Eq, Structural)]
pub struct Order {
    pub id: OrderId,
    pub side: Side,
    pub price: Price,
    pub quantity: Quantity,
    pub remaining: Quantity,
    pub sequence: u64,
}

impl Order {
    /// The same order with `remaining` set to `r`.
    pub open spec fn with_remaining(self, r: Quantity) -> Order {
        Order {
            id: self.id,
            side: self.side,
            price: self.price,
            quantity: self.quantity,
            remaining: r,
            sequence: self.sequence,
        }
    }

    /// A fresh order, with nothing filled yet; refused when `quantity` is zero.
    pub fn new(id: OrderId, side: Side, price: Price, quantity: Quantity, sequence: u64) -> (res:
        Result<Self, String>)
        ensures
            quantity == 0 <==> res is Err,
            res matches Err(e) ==> e@ == "quantity must be greater than zero"@,
            res matches Ok(o) ==> o == (Order { id, side, price, quantity, remaining: quantity, sequence }),
    {
        if quantity == 0 {
            return Err(String::from_str("quantity must be greater than zero"));
        }
        Ok(Self { id, side, price, quantity, remaining: quantity, sequence })
    }

    pub fn is_filled(&self) -> (b: bool)
        ensures
            b == (self.remaining == 0),
    {
        self.remaining == 0
    }
}

} // verus!
