use vstd::prelude::*;

verus! {

/// Identifier of an order.
pub type OrderId = u64;

/// Identifier of an account.
pub type AccountId = String;

/// The side of the book an order belongs to.
#[derive(Debug, Clone, Copy, PartialEq, Eq, Structural)]
pub enum Side {
    Buy,
    Sell,
}

/// The kinds of orders the engine accepts.
#[derive(Debug, Clone, Copy, PartialEq, Eq, Structural)]
pub enum OrderType {
    Limit,
}

/// The lifecycle states of an order.
#[derive(Debug, Clone, Copy, PartialEq, Eq, Structural)]
pub enum OrderStatus {
    Open,
    PartiallyFilled,
    Filled,
    Cancelled,
}

/// A limit order: `qty` is what was asked for, `remaining` what is still unfilled.
#[derive(Debug)]
pub struct Order {
    pub id: OrderId,
    pub account: AccountId,
    pub market: String,
    pub side: Side,
    pub order_type: OrderType,
    pub price: u64,
    pub qty: u64,
    pub remaining: u64,
    pub timestamp: i64,
}

impl Clone for Order {
    fn clone(&self) -> (r: Self)
        ensures
            r == *self,
    {
        Order {
            id: self.id,
            account: self.account.clone(),
            market: self.market.clone(),
            side: self.side,
            order_type: self.order_type,
            price: self.price,
            qty: self.qty,
            remaining: self.remaining,
            timestamp: self.timestamp,
        }
    }
}

impl Order {
    /// A fresh limit order with nothing filled yet.
    pub fn new(
        id: OrderId,
        account: &str,
        market: &str,
        side: Side,
        price: u64,
        qty: u64,
        timestamp: i64,
    ) -> (o: Self)
        ensures
            o.id == id,
            o.account@ == account@,
            o.market@ == market@,
            o.side == side,
            o.order_type == OrderType::Limit,
            o.price == price,
            o.qty == qty,
            o.remaining == qty,
            o.timestamp == timestamp,
    {
        Order {
            id,
            account: account.to_owned(),
            market: market.to_owned(),
            side,
            order_type: OrderType::Limit,
            price,
            qty,
            remaining: qty,
            timestamp,
        }
    }
}

/// What `str::to_uppercase` makes of a string: each character replaced by its
/// Unicode uppercase mapping.
pub uninterp spec fn uppercase(s: Seq<char>) -> Seq<char>;

/// Calls `str::to_uppercase`. Trusted: the result is the uppercase form of the
/// argument, which depends on the argument alone; what that form is, character
/// by character, is left to the name `uppercase`.
#[verifier::external_body]
fn to_uppercase(s: &str) -> (r: String)
    ensures
        r@ == uppercase(s@),
{
    s.to_uppercase()
}

/// The side an uppercased word names: `BUY` or `SELL`.
pub open spec fn side_named(upper: Seq<char>) -> Option<Side> {
    if upper == "BUY"@ {
        Some(Side::Buy)
    } else if upper == "SELL"@ {
        Some(Side::Sell)
    } else {
        None
    }
}

/// The side an uppercased word names, if any.
pub fn side_from_upper(upper: &str) -> (r: Option<Side>)
    ensures
        r == side_named(upper@),
{
    let word = upper.to_owned();
    if word == "BUY".to_owned() {
        Some(Side::Buy)
    } else if word == "SELL".to_owned() {
        Some(Side::Sell)
    } else {
        None
    }
}

impl Side {
    /// Reads a side from a word in any case: `buy` or `sell`.
    pub fn parse(word: &str) -> (r: Option<Side>)
        ensures
            r == side_named(uppercase(word@)),
    {
        let upper = to_uppercase(word);
        side_from_upper(upper.as_str())
    }
}

} // verus!
