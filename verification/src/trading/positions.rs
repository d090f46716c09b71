use vstd::prelude::*;
use vstd::string::StringExecFns;

use crate::trading::order::AccountId;
use crate::trading::orderbook::Trade;
use crate::trading::strmap::StrMap;

verus! {

/// What an account holds in a market: a signed quantity (negative when short),
/// the average price it was bought at, and the profit realized by selling.
#[derive(Debug)]
pub struct Position {
    pub account: AccountId,
    pub market: String,
    pub quantity: i128,
    pub avg_entry_price: Option<u64>,
    pub realized_pnl: i128,
}

/// A position, with its names as character sequences.
pub struct PositionView {
    pub account: Seq<char>,
    pub market: Seq<char>,
    pub quantity: i128,
    pub avg_entry_price: Option<u64>,
    pub realized_pnl: i128,
}

impl View for Position {
    type V = PositionView;

    open spec fn view(&self) -> PositionView {
        PositionView {
            account: self.account@,
            market: self.market@,
            quantity: self.quantity,
            avg_entry_price: self.avg_entry_price,
            realized_pnl: self.realized_pnl,
        }
    }
}

impl Clone for Position {
    fn clone(&self) -> (r: Self)
        ensures
            r == *self,
    {
        Position {
            account: self.account.clone(),
            market: self.market.clone(),
            quantity: self.quantity,
            avg_entry_price: self.avg_entry_price,
            realized_pnl: self.realized_pnl,
        }
    }
}

/// A flat position: nothing held, no average price, nothing realized.
pub open spec fn flat_position(account: Seq<char>, market: Seq<char>) -> PositionView {
    PositionView { account, market, quantity: 0, avg_entry_price: None, realized_pnl: 0 }
}

impl Position {
    /// Buys `qty` at `price`.
    pub fn buy(&mut self, price: u64, qty: u64)
        requires
            buy_fits(old(self)@, price, qty),
        ensures
            final(self)@ == after_buy(old(self)@, price, qty),
    {
        let trade_qty_i128 = qty as i128;
        let trade_price_i128 = price as i128;
        if self.quantity <= 0 {
            self.avg_entry_price = Some(price);
        } else if let Some(prev_price) = self.avg_entry_price {
            let new_qty = self.quantity + trade_qty_i128;
            if new_qty != 0 {
                let new_price = ((self.quantity * prev_price as i128) + (trade_qty_i128
                    * trade_price_i128)) / new_qty;
                self.avg_entry_price = Some(new_price as u64);
            }
        }
        self.quantity = self.quantity + trade_qty_i128;
    }

    /// Sells `qty` at `price`.
    pub fn sell(&mut self, price: u64, qty: u64)
        requires
            sell_fits(old(self)@, price, qty),
        ensures
            final(self)@ == after_sell(old(self)@, price, qty),
    {
        let trade_qty_i128 = qty as i128;
        if self.quantity > 0 {
            if let Some(avg) = self.avg_entry_price {
                let closed = if trade_qty_i128 <= self.quantity {
                    trade_qty_i128
                } else {
                    self.quantity
                };
                let pnl = (price as i128 - avg as i128) * closed;
                self.realized_pnl = self.realized_pnl + pnl;
            }
        }
        self.quantity = self.quantity - trade_qty_i128;
    }

    /// Whether a buy of `qty` at `price` stays within `i128`.
    pub fn can_buy(&self, price: u64, qty: u64) -> (r: bool)
        ensures
            r == buy_fits(self@, price, qty),
    {
        let tq = qty as i128;
        if self.quantity.checked_add(tq).is_none() {
            return false;
        }
        if self.quantity > 0 {
            match self.avg_entry_price {
                Some(prev) => {
                    let held = self.quantity.checked_mul(prev as i128);
                    let bought = tq.checked_mul(price as i128);
                    match (held, bought) {
                        (Some(h), Some(b)) => h.checked_add(b).is_some(),
                        _ => false,
                    }
                },
                None => true,
            }
        } else {
            true
        }
    }

    /// Whether a sell of `qty` at `price` stays within `i128`.
    pub fn can_sell(&self, price: u64, qty: u64) -> (r: bool)
        ensures
            r == sell_fits(self@, price, qty),
    {
        let tq = qty as i128;
        if self.quantity.checked_sub(tq).is_none() {
            return false;
        }
        if self.quantity > 0 {
            match self.avg_entry_price {
                Some(avg) => {
                    let diff = price as i128 - avg as i128;
                    let closed = if tq <= self.quantity {
                        tq
                    } else {
                        self.quantity
                    };
                    match diff.checked_mul(closed) {
                        Some(pnl) => self.realized_pnl.checked_add(pnl).is_some(),
                        None => false,
                    }
                },
                None => true,
            }
        } else {
            true
        }
    }

    /// A flat position of the account in the market.
    pub fn new(account: &str, market: &str) -> (p: Self)
        ensures
            p@ == flat_position(account@, market@),
    {
        Position {
            account: account.to_owned(),
            market: market.to_owned(),
            quantity: 0,
            avg_entry_price: None,
            realized_pnl: 0,
        }
    }
}

/// The key a position is stored under: the account and the market joined by `:`.
pub open spec fn position_key(account: Seq<char>, market: Seq<char>) -> Seq<char> {
    account + ":"@ + market
}

/// The stored position, or a flat one when there is none.
pub open spec fn position_or_flat(
    m: Map<Seq<char>, PositionView>,
    account: Seq<char>,
    market: Seq<char>,
) -> PositionView {
    if m.contains_key(position_key(account, market)) {
        m[position_key(account, market)]
    } else {
        flat_position(account, market)
    }
}

/// The weighted average of the old entry price and the trade price, by quantity.
pub open spec fn averaged_price(quantity: int, prev: u64, qty: u64, price: u64) -> int {
    (quantity * prev + qty * price) / (quantity + qty)
}

/// A buy of `qty` at `price`: from flat or short, the entry price becomes the
/// trade price; from long, it becomes the quantity-weighted average.
pub open spec fn after_buy(p: PositionView, price: u64, qty: u64) -> PositionView {
    let avg = if p.quantity <= 0 {
        Some(price)
    } else {
        match p.avg_entry_price {
            Some(prev) => Some(averaged_price(p.quantity as int, prev, qty, price) as u64),
            None => None,
        }
    };
    PositionView {
        quantity: (p.quantity + qty) as i128,
        avg_entry_price: avg,
        ..p
    }
}

/// A buy's entry price: from flat or short it is the trade price; added to a
/// long position it is the quantity-weighted average of the old entry price
/// and the trade price, rounded down: `avg * (quantity + qty)` is at most
/// `quantity * old_avg + qty * price` and less than it plus `quantity + qty`.
/// The quantity grows by `qty`, and the account, market and realized profit
/// stay.
pub proof fn buy_averages_entry_price(p: PositionView, price: u64, qty: u64)
    requires
        buy_fits(p, price, qty),
    ensures
        ({
            let a = after_buy(p, price, qty);
            &&& a.quantity == p.quantity + qty
            &&& a.account == p.account && a.market == p.market && a.realized_pnl == p.realized_pnl
            &&& p.quantity <= 0 ==> a.avg_entry_price == Some(price)
            &&& (p.quantity > 0 && p.avg_entry_price is None) ==> a.avg_entry_price is None
            &&& (p.quantity > 0 && p.avg_entry_price is Some) ==> {
                let prev = p.avg_entry_price->0;
                let v = a.avg_entry_price->0;
                &&& a.avg_entry_price is Some
                &&& v * (p.quantity + qty) <= p.quantity * prev + qty * price
                &&& p.quantity * prev + qty * price < (v + 1) * (p.quantity + qty)
            }
        }),
{
    if p.quantity > 0 && p.avg_entry_price is Some {
        let prev = p.avg_entry_price->0;
        let q = p.quantity as int;
        let t = qty as int;
        let pr = price as int;
        let pv = prev as int;
        let n = q * pv + t * pr;
        let d = q + t;
        let m = if pv >= pr { pv } else { pr };
        assert(0 <= n <= d * m) by (nonlinear_arith)
            requires
                q > 0,
                t >= 0,
                pv >= 0,
                pr >= 0,
                d == q + t,
                n == q * pv + t * pr,
                m >= pv,
                m >= pr,
        ;
        let v = n / d;
        assert(v * d <= n < (v + 1) * d && 0 <= v <= m) by (nonlinear_arith)
            requires
                d > 0,
                0 <= n <= d * m,
                v == n / d,
        ;
        assert(averaged_price(q, prev, qty, price) == v);
        assert((v as u64) as int == v);
    }
}

/// Whether the arithmetic of a buy fits in `i128`.
pub open spec fn buy_fits(p: PositionView, price: u64, qty: u64) -> bool {
    &&& p.quantity + qty <= i128::MAX
    &&& (p.quantity > 0 && p.avg_entry_price is Some) ==> {
        let prev = p.avg_entry_price->0;
        &&& p.quantity * prev <= i128::MAX
        &&& qty * price <= i128::MAX
        &&& p.quantity * prev + qty * price <= i128::MAX
    }
}

/// How much of a sell of `qty` closes a long position: all of it, or the whole
/// position when the sell is larger (the rest opens a short).
pub open spec fn closed_qty(p: PositionView, qty: u64) -> int {
    if qty <= p.quantity {
        qty as int
    } else {
        p.quantity as int
    }
}

/// A sell of `qty` at `price`: a long position realizes `(price - avg)` on each
/// unit it closes; the quantity goes down (possibly below zero); the entry
/// price stays.
pub open spec fn after_sell(p: PositionView, price: u64, qty: u64) -> PositionView {
    let pnl = if p.quantity > 0 && p.avg_entry_price is Some {
        p.realized_pnl + (price - p.avg_entry_price->0) * closed_qty(p, qty)
    } else {
        p.realized_pnl as int
    };
    PositionView { quantity: (p.quantity - qty) as i128, realized_pnl: pnl as i128, ..p }
}

/// A sell: the quantity goes down by `qty` and the entry price stays. Selling
/// from a long position with an entry price realizes `price - avg` on each
/// unit it closes: all `qty` units when the position holds that many, else
/// the whole position (the rest opens a short). From flat or short nothing is
/// realized.
pub proof fn sell_realizes_closed_units(p: PositionView, price: u64, qty: u64)
    requires
        sell_fits(p, price, qty),
    ensures
        ({
            let a = after_sell(p, price, qty);
            &&& a.quantity == p.quantity - qty
            &&& a.avg_entry_price == p.avg_entry_price
            &&& a.account == p.account && a.market == p.market
            &&& (p.quantity > 0 && p.avg_entry_price is Some && qty <= p.quantity) ==> a.realized_pnl
                == p.realized_pnl + (price - p.avg_entry_price->0) * qty
            &&& (p.quantity > 0 && p.avg_entry_price is Some && qty > p.quantity) ==> a.realized_pnl
                == p.realized_pnl + (price - p.avg_entry_price->0) * p.quantity
            &&& !(p.quantity > 0 && p.avg_entry_price is Some) ==> a.realized_pnl == p.realized_pnl
        }),
{
}

/// Whether the arithmetic of a sell fits in `i128`.
pub open spec fn sell_fits(p: PositionView, price: u64, qty: u64) -> bool {
    &&& p.quantity - qty >= i128::MIN
    &&& (p.quantity > 0 && p.avg_entry_price is Some) ==> {
        let pnl = (price - p.avg_entry_price->0) * closed_qty(p, qty);
        &&& i128::MIN <= pnl <= i128::MAX
        &&& i128::MIN <= p.realized_pnl + pnl <= i128::MAX
    }
}

/// The positions after the buyer's side of a trade.
pub open spec fn buyer_applied(
    m: Map<Seq<char>, PositionView>,
    t: Trade,
    market: Seq<char>,
    buyer: Seq<char>,
) -> Map<Seq<char>, PositionView> {
    m.insert(
        position_key(buyer, market),
        after_buy(position_or_flat(m, buyer, market), t.price, t.qty),
    )
}

/// The positions after a trade: the buyer's position buys, then the seller's
/// position sells (the same position when both keys coincide).
pub open spec fn trade_applied(
    m: Map<Seq<char>, PositionView>,
    t: Trade,
    market: Seq<char>,
    buyer: Seq<char>,
    seller: Seq<char>,
) -> Map<Seq<char>, PositionView> {
    let m1 = buyer_applied(m, t, market, buyer);
    m1.insert(
        position_key(seller, market),
        after_sell(position_or_flat(m1, seller, market), t.price, t.qty),
    )
}

/// Whether applying a trade stays within `i128`.
pub open spec fn trade_fits(
    m: Map<Seq<char>, PositionView>,
    t: Trade,
    market: Seq<char>,
    buyer: Seq<char>,
    seller: Seq<char>,
) -> bool {
    &&& buy_fits(position_or_flat(m, buyer, market), t.price, t.qty)
    &&& sell_fits(
        position_or_flat(buyer_applied(m, t, market, buyer), seller, market),
        t.price,
        t.qty,
    )
}

/// Each position is stored under the key of its own account and market.
pub open spec fn positions_named(m: Map<Seq<char>, PositionView>) -> bool {
    forall|k: Seq<char>|
        #[trigger] m.contains_key(k) ==> k == position_key(m[k].account, m[k].market)
}

/// The positions of all accounts, by account and market.
#[derive(Debug)]
pub struct PositionsStore {
    pub positions: StrMap<Position>,
}

impl View for PositionsStore {
    type V = Map<Seq<char>, PositionView>;

    open spec fn view(&self) -> Map<Seq<char>, PositionView> {
        self.positions@
    }
}

impl Default for PositionsStore {
    fn default() -> (s: Self)
        ensures
            s.wf(),
            s@ == Map::<Seq<char>, PositionView>::empty(),
    {
        PositionsStore::new()
    }
}

impl PositionsStore {
    /// Well formed: each position is stored under the key of its own account
    /// and market.
    pub open spec fn wf(&self) -> bool {
        &&& self.positions.wf()
        &&& positions_named(self@)
    }

    /// No positions.
    pub fn new() -> (s: Self)
        ensures
            s.wf(),
            s@ == Map::<Seq<char>, PositionView>::empty(),
    {
        PositionsStore { positions: StrMap::new() }
    }

    /// The key of the account's position in the market.
    pub(crate) fn key(account: &str, market: &str) -> (k: String)
        ensures
            k@ == position_key(account@, market@),
    {
        account.to_owned().concat(":").concat(market)
    }

    /// The account's position in the market, if it has one.
    pub fn get(&self, account: &str, market: &str) -> (r: Option<&Position>)
        requires
            self.wf(),
        ensures
            match r {
                Some(p) => self@.contains_key(position_key(account@, market@)) && p@ == self@[position_key(
                    account@,
                    market@,
                )],
                None => !self@.contains_key(position_key(account@, market@)),
            },
    {
        self.positions.get(&Self::key(account, market))
    }

    /// A mutable handle on the account's position in the market, if it has one.
    pub fn get_mut(&mut self, account: &str, market: &str) -> (r: Option<&mut Position>)
        requires
            old(self).wf(),
        ensures
            match r {
                Some(p) => {
                    &&& old(self)@.contains_key(position_key(account@, market@))
                    &&& (*p)@ == old(self)@[position_key(account@, market@)]
                    &&& final(self)@ == old(self)@.insert(
                        position_key(account@, market@),
                        (*final(p))@,
                    )
                    &&& (*final(p))@.account == (*p)@.account && (*final(p))@.market
                        == (*p)@.market ==> final(self).wf()
                },
                None => {
                    &&& !old(self)@.contains_key(position_key(account@, market@))
                    &&& *final(self) == *old(self)
                },
            },
    {
        let k = Self::key(account, market);
        self.positions.get_mut(&k)
    }

    /// The account's position in the market, created flat if it has none.
    pub fn ensure(&mut self, account: &str, market: &str) -> (r: &mut Position)
        requires
            old(self).wf(),
        ensures
            (*r)@ == position_or_flat(old(self)@, account@, market@),
            final(self)@ == old(self)@.insert(position_key(account@, market@), (*final(r))@),
            (*final(r))@.account == (*r)@.account && (*final(r))@.market == (*r)@.market
                ==> final(self).wf(),
    {
        let k = Self::key(account, market);
        if !self.positions.contains_key(&k) {
            self.positions.insert(k.clone(), Position::new(account, market));
        }
        self.positions.get_mut(&k).unwrap()
    }

    /// Applies a trade in the market: the buyer's position buys, then the
    /// seller's position sells.
    pub fn apply_trade(&mut self, trade: &Trade, market: &str, buy_account: &str, sell_account: &str)
        requires
            old(self).wf(),
            trade_fits(old(self)@, *trade, market@, buy_account@, sell_account@),
        ensures
            final(self).wf(),
            final(self)@ == trade_applied(old(self)@, *trade, market@, buy_account@, sell_account@),
    {
        let buy_pos = self.ensure(buy_account, market);
        buy_pos.buy(trade.price, trade.qty);
        let sell_pos = self.ensure(sell_account, market);
        sell_pos.sell(trade.price, trade.qty);
    }
}

} // verus!
