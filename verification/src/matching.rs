//! Order book and price-time-priority matching.
//!
//! Each side of a book is a vector of price levels, best price first: bids
//! descending, asks ascending.  Within a level, orders queue in arrival
//! order.  An order index maps order ids to their latest state, and mirrors
//! every resting order exactly.
//!
//! A deliberate resolution: a market taker whose residual was discarded is
//! not recorded in the index at all.  Recording it with a live status would
//! break the invariant that live index entries rest in the book, and
//! nothing in the message surface reads such an entry back — a later cancel
//! of that id reports not-found either way.

use vstd::prelude::*;
use vstd::string::StringExecFns;
use crate::decimal::{Decimal, UNITS_BOUND};

verus! {

/// Lifecycle of an order.
#[derive(Debug, Clone, Copy, PartialEq, Eq, Structural)]
pub enum OrderStatus {
    Pending,
    Partial,
    Filled,
    Cancelled,
}

/// Limit orders may rest; market orders never do.
#[derive(Debug, Clone, Copy, PartialEq, Eq, Structural)]
pub enum OrderType {
    Limit,
    Market,
}

impl From<i32> for OrderType {
    /// Wire code 1 is a market order; anything else is a limit order.
    fn from(value: i32) -> (r: OrderType) {
        if value == 1 {
            OrderType::Market
        } else {
            OrderType::Limit
        }
    }
}

impl vstd::std_specs::convert::FromSpecImpl<i32> for OrderType {
    open spec fn obeys_from_spec() -> bool {
        true
    }

    open spec fn from_spec(v: i32) -> OrderType {
        if v == 1 {
            OrderType::Market
        } else {
            OrderType::Limit
        }
    }
}

/// Buy (bid) or sell (ask).
#[derive(Debug, Clone, Copy, PartialEq, Eq, Structural)]
pub enum OrderSide {
    Bid,
    Ask,
}

impl From<i32> for OrderSide {
    /// Wire code 1 is an ask; anything else is a bid.
    fn from(value: i32) -> (r: OrderSide) {
        if value == 1 {
            OrderSide::Ask
        } else {
            OrderSide::Bid
        }
    }
}

impl vstd::std_specs::convert::FromSpecImpl<i32> for OrderSide {
    open spec fn obeys_from_spec() -> bool {
        true
    }

    open spec fn from_spec(v: i32) -> OrderSide {
        if v == 1 {
            OrderSide::Ask
        } else {
            OrderSide::Bid
        }
    }
}

/// The side a taker of side `s` matches against.
pub open spec fn opposite(s: OrderSide) -> OrderSide {
    match s {
        OrderSide::Bid => OrderSide::Ask,
        OrderSide::Ask => OrderSide::Bid,
    }
}

/// An order as the matcher sees it.
#[derive(Debug, Clone, Copy, PartialEq, Eq, Structural)]
pub struct Order {
    pub id: u64,
    pub request_id: u128,
    pub symbol_id: i32,
    pub account_id: i32,
    pub order_type: OrderType,
    pub side: OrderSide,
    pub price: Decimal,
    pub quantity: Decimal,
    pub filled_quantity: Decimal,
    pub status: OrderStatus,
    pub created_at: u64,
}

impl Order {
    /// Amounts well-formed and the fill never exceeds the quantity.
    pub open spec fn wf(&self) -> bool {
        &&& self.price.wf()
        &&& self.quantity.wf()
        &&& self.filled_quantity.wf()
        &&& self.filled_quantity.units() <= self.quantity.units()
    }

    /// Unfilled part of the order, in canonical units.
    pub open spec fn remaining_units(&self) -> int {
        self.quantity.units() - self.filled_quantity.units()
    }

    /// Whether the order still rests (or may rest) in a book.
    pub open spec fn is_open(&self) -> bool {
        self.status == OrderStatus::Pending || self.status == OrderStatus::Partial
    }

    /// A fresh order: nothing filled, status pending.
    pub fn new(
        id: u64,
        request_id: u128,
        symbol_id: i32,
        account_id: i32,
        order_type: OrderType,
        side: OrderSide,
        price: Decimal,
        quantity: Decimal,
        created_at: u64,
    ) -> (r: Order)
        requires
            price.wf(),
            quantity.wf(),
        ensures
            r == (Order {
                id,
                request_id,
                symbol_id,
                account_id,
                order_type,
                side,
                price,
                quantity,
                filled_quantity: r.filled_quantity,
                status: OrderStatus::Pending,
                created_at,
            }),
            r.filled_quantity.units() == 0 && r.filled_quantity.scale == 0
                && r.filled_quantity.mantissa == 0,
            r.wf(),
            r.remaining_units() == quantity.units(),
    {
        Order {
            id,
            request_id,
            symbol_id,
            account_id,
            order_type,
            side,
            price,
            quantity,
            filled_quantity: Decimal::zero(),
            status: OrderStatus::Pending,
            created_at,
        }
    }

    /// The unfilled quantity, represented at the coarser of the quantity's
    /// and the fill's scales.
    pub fn remaining_quantity(&self) -> (r: Decimal)
        requires
            self.wf(),
        ensures
            r.wf(),
            r.units() == self.remaining_units(),
            r.scale == if self.quantity.scale >= self.filled_quantity.scale {
                self.quantity.scale
            } else {
                self.filled_quantity.scale
            },
    {
        match self.quantity.checked_sub(&self.filled_quantity) {
            Some(d) => d,
            None => {
                proof {
                    assert(false);
                }
                Decimal::zero()
            },
        }
    }

    /// Whether the order is completely filled.
    pub fn is_filled(&self) -> (r: bool)
        requires
            self.wf(),
        ensures
            r == (self.filled_quantity.units() >= self.quantity.units()),
            r == (self.remaining_units() == 0),
    {
        !self.filled_quantity.lt(&self.quantity)
    }

    /// Whether two orders cross: same symbol, opposite sides, and the bid
    /// price reaches the ask price.
    pub open spec fn spec_can_match(&self, other: &Order) -> bool {
        &&& self.symbol_id == other.symbol_id
        &&& self.side != other.side
        &&& (match self.side {
            OrderSide::Bid => self.price.units() >= other.price.units(),
            OrderSide::Ask => self.price.units() <= other.price.units(),
        })
    }

    /// Whether this order could trade against `other`.
    pub fn can_match(&self, other: &Order) -> (r: bool)
        requires
            self.wf(),
            other.wf(),
        ensures
            r == self.spec_can_match(other),
    {
        if self.symbol_id != other.symbol_id {
            return false;
        }
        match (self.side, other.side) {
            (OrderSide::Bid, OrderSide::Ask) => other.price.le(&self.price),
            (OrderSide::Ask, OrderSide::Bid) => self.price.le(&other.price),
            _ => false,
        }
    }
}

/// One execution: `quantity` of the base changes hands at `price`.
#[derive(Debug, Clone, Copy, PartialEq, Eq, Structural)]
pub struct Trade {
    pub id: u64,
    pub symbol_id: i32,
    pub buy_order_id: u64,
    pub sell_order_id: u64,
    pub buy_account_id: i32,
    pub sell_account_id: i32,
    pub price: Decimal,
    pub quantity: Decimal,
    pub created_at: u64,
}

impl Trade {
    pub open spec fn wf(&self) -> bool {
        &&& self.price.wf()
        &&& self.quantity.wf()
        &&& self.quantity.units() > 0
    }
}

/// Sum of the unfilled quantities of a queue of orders, in canonical units.
pub open spec fn sum_remaining(s: Seq<Order>) -> int
    decreases s.len(),
{
    if s.len() == 0 {
        0
    } else {
        sum_remaining(s.drop_last()) + s.last().remaining_units()
    }
}

/// All orders at one price on one side, in arrival order.
#[derive(Debug, Clone)]
pub struct PriceLevel {
    pub price: Decimal,
    pub total_quantity: Decimal,
    pub orders: Vec<Order>,
}

impl PriceLevel {
    /// Orders in the level belong at its price, are live, have something
    /// left to fill, and the cached total is their exact sum.
    pub open spec fn wf(&self) -> bool {
        &&& self.price.wf()
        &&& self.total_quantity.wf()
        &&& self.total_quantity.units() == sum_remaining(self.orders@)
        &&& forall|j: int|
            0 <= j < self.orders@.len() ==> {
                &&& (#[trigger] self.orders@[j]).wf()
                &&& self.orders@[j].price.units() == self.price.units()
                &&& self.orders@[j].remaining_units() > 0
                &&& self.orders@[j].is_open()
            }
    }

    /// All orders in the level have the given side and symbol.
    pub open spec fn uniform(&self, side: OrderSide, symbol_id: int) -> bool {
        forall|j: int|
            0 <= j < self.orders@.len() ==> {
                &&& (#[trigger] self.orders@[j]).side == side
                &&& self.orders@[j].symbol_id == symbol_id
            }
    }

    /// No order id repeats within the level.
    pub open spec fn distinct_ids(&self) -> bool {
        forall|j1: int, j2: int|
            0 <= j1 < j2 < self.orders@.len() ==> (#[trigger] self.orders@[j1]).id != (
            #[trigger] self.orders@[j2]).id
    }

    /// An empty level at the given price.
    pub fn new(price: Decimal) -> (r: PriceLevel)
        requires
            price.wf(),
        ensures
            r.price == price,
            r.total_quantity.units() == 0,
            r.orders@.len() == 0,
            r.wf(),
    {
        PriceLevel { price, total_quantity: Decimal::zero(), orders: Vec::new() }
    }

    /// Queue an order at the tail of the level.  Fails (leaving the level
    /// unchanged) only when the level total would leave the representable
    /// range.
    pub fn add_order(&mut self, order: Order) -> (r: bool)
        requires
            old(self).wf(),
            order.wf(),
            order.price.units() == old(self).price.units(),
            order.remaining_units() > 0,
            order.is_open(),
        ensures
            final(self).price == old(self).price,
            r ==> {
                &&& final(self).orders@ == old(self).orders@.push(order)
                &&& final(self).wf()
            },
            !r ==> {
                &&& *final(self) == *old(self)
                &&& sum_remaining(old(self).orders@.push(order)) >= UNITS_BOUND as int
            },
    {
        let rem = order.remaining_quantity();
        match self.total_quantity.checked_add(&rem) {
            Some(t) => {
                self.total_quantity = t;
                self.orders.push(order);
                proof {
                    assert(self.orders@.drop_last() =~= old(self).orders@);
                }
                true
            },
            None => {
                proof {
                    assert(old(self).orders@.push(order).drop_last() =~= old(self).orders@);
                }
                false
            },
        }
    }

    /// Whether the level holds no orders.
    pub fn is_empty(&self) -> (r: bool)
        ensures
            r == (self.orders@.len() == 0),
    {
        self.orders.len() == 0
    }
}

/// Removing an element lowers the sum by exactly its unfilled quantity.
pub proof fn lemma_sum_remaining_remove(s: Seq<Order>, i: int)
    requires
        0 <= i < s.len(),
    ensures
        sum_remaining(s.remove(i)) == sum_remaining(s) - s[i].remaining_units(),
    decreases s.len(),
{
    if i == s.len() - 1 {
        assert(s.remove(i) =~= s.drop_last());
    } else {
        lemma_sum_remaining_remove(s.drop_last(), i);
        assert(s.remove(i).drop_last() =~= s.drop_last().remove(i));
        assert(s.remove(i).last() == s.last());
    }
}

/// Sums of queues of live orders are non-negative.
pub proof fn lemma_sum_remaining_nonneg(s: Seq<Order>)
    requires
        forall|j: int| 0 <= j < s.len() ==> (#[trigger] s[j]).remaining_units() >= 0,
    ensures
        sum_remaining(s) >= 0,
    decreases s.len(),
{
    if s.len() > 0 {
        lemma_sum_remaining_nonneg(s.drop_last());
    }
}

/// The head's unfilled quantity is part of the sum.
pub proof fn lemma_sum_remaining_head(s: Seq<Order>)
    requires
        s.len() > 0,
        forall|j: int| 0 <= j < s.len() ==> (#[trigger] s[j]).remaining_units() >= 0,
    ensures
        sum_remaining(s) == s[0].remaining_units() + sum_remaining(s.drop_first()),
        sum_remaining(s) >= s[0].remaining_units(),
    decreases s.len(),
{
    if s.len() == 1 {
        assert(s.drop_first() =~= Seq::<Order>::empty());
        assert(s.drop_last() =~= Seq::<Order>::empty());
    } else {
        lemma_sum_remaining_head(s.drop_last());
        assert(s.drop_last()[0] == s[0]);
        assert(s.drop_first().drop_last() =~= s.drop_last().drop_first());
        assert(s.drop_first().last() == s.last());
        lemma_sum_remaining_nonneg(s.drop_first());
    }
}

/// Index of the first order with the given id, or -1.
pub open spec fn find_order_index(s: Seq<Order>, id: u64) -> int
    decreases s.len(),
{
    if s.len() == 0 {
        -1
    } else if s[0].id == id {
        0
    } else {
        let r = find_order_index(s.drop_first(), id);
        if r < 0 {
            -1
        } else {
            r + 1
        }
    }
}

/// What `find_order_index` finds.
pub proof fn lemma_find_order_index_spec(s: Seq<Order>, id: u64)
    ensures
        find_order_index(s, id) == -1 ==> (forall|j: int| 0 <= j < s.len() ==> (#[trigger] s[j]).id
            != id),
        find_order_index(s, id) >= 0 ==> {
            &&& find_order_index(s, id) < s.len()
            &&& s[find_order_index(s, id)].id == id
        },
    decreases s.len(),
{
    if s.len() > 0 && s[0].id != id {
        lemma_find_order_index_spec(s.drop_first(), id);
        assert(forall|j: int| 1 <= j < s.len() ==> s.drop_first()[j - 1] == #[trigger] s[j]);
    }
}

impl PriceLevel {
    /// Remove the first order with the given id; `None` (and no change)
    /// when the level has no such order.
    pub fn remove_order(&mut self, order_id: u64) -> (r: Option<Order>)
        requires
            old(self).wf(),
        ensures
            final(self).price == old(self).price,
            match r {
                Some(o) => {
                    &&& find_order_index(old(self).orders@, order_id) >= 0
                    &&& o == old(self).orders@[find_order_index(old(self).orders@, order_id)]
                    &&& final(self).orders@ == old(self).orders@.remove(
                        find_order_index(old(self).orders@, order_id),
                    )
                    &&& final(self).wf()
                },
                None => {
                    &&& *final(self) == *old(self)
                    &&& find_order_index(old(self).orders@, order_id) == -1
                },
            },
    {
        let n = self.orders.len();
        let mut i: usize = 0;
        proof {
            lemma_find_order_index_spec(self.orders@, order_id);
            assert(self.orders@.skip(0) =~= self.orders@);
        }
        while i < n
            invariant
                i <= n == self.orders@.len(),
                *self == *old(self),
                old(self).wf(),
                find_order_index(old(self).orders@, order_id) == {
                    let r = find_order_index(old(self).orders@.skip(i as int), order_id);
                    if r < 0 {
                        -1int
                    } else {
                        r + i
                    }
                },
            decreases n - i,
        {
            proof {
                assert(self.orders@.skip(i as int)[0] == self.orders@[i as int]);
                assert(self.orders@.skip(i as int).drop_first() =~= self.orders@.skip(i as int + 1));
            }
            if self.orders[i].id == order_id {
                let o = self.orders.remove(i);
                proof {
                    lemma_sum_remaining_remove(old(self).orders@, i as int);
                    lemma_sum_remaining_nonneg(self.orders@);
                }
                let rem = o.remaining_quantity();
                match self.total_quantity.checked_sub(&rem) {
                    Some(t) => {
                        self.total_quantity = t;
                        return Some(o);
                    },
                    None => {
                        proof {
                            assert(false);
                        }
                        return None;
                    },
                }
            }
            i = i + 1;
        }
        proof {
            assert(self.orders@.skip(n as int).len() == 0);
        }
        None
    }

    /// Recompute the cached level total from the queued orders.
    pub fn update_quantity(&mut self)
        requires
            old(self).total_quantity.wf(),
            old(self).price.wf(),
            forall|j: int|
                0 <= j < old(self).orders@.len() ==> {
                    &&& (#[trigger] old(self).orders@[j]).wf()
                    &&& old(self).orders@[j].remaining_units() >= 0
                },
            sum_remaining(old(self).orders@) < UNITS_BOUND as int,
        ensures
            final(self).orders == old(self).orders,
            final(self).price == old(self).price,
            final(self).total_quantity.wf(),
            final(self).total_quantity.units() == sum_remaining(old(self).orders@),
    {
        let n = self.orders.len();
        let mut acc = Decimal::zero();
        let mut i: usize = 0;
        proof {
            assert(self.orders@.take(0) =~= Seq::<Order>::empty());
        }
        while i < n
            invariant
                i <= n == self.orders@.len(),
                self.orders == old(self).orders,
                self.price == old(self).price,
                forall|j: int|
                    0 <= j < self.orders@.len() ==> {
                        &&& (#[trigger] self.orders@[j]).wf()
                        &&& self.orders@[j].remaining_units() >= 0
                    },
                sum_remaining(self.orders@) < UNITS_BOUND as int,
                acc.wf(),
                acc.units() == sum_remaining(self.orders@.take(i as int)),
            decreases n - i,
        {
            proof {
                assert(self.orders@.take(i as int + 1).drop_last() =~= self.orders@.take(i as int));
                assert(self.orders@.take(i as int + 1).last() == self.orders@[i as int]);
                lemma_sum_prefix_le(self.orders@, i as int + 1);
            }
            let rem = self.orders[i].remaining_quantity();
            match acc.checked_add(&rem) {
                Some(t) => {
                    acc = t;
                },
                None => {
                    proof {
                        assert(false);
                    }
                },
            }
            i = i + 1;
        }
        proof {
            assert(self.orders@.take(n as int) =~= self.orders@);
        }
        self.total_quantity = acc;
    }
}

/// A prefix sum of unfilled quantities never exceeds the full sum.
pub proof fn lemma_sum_prefix_le(s: Seq<Order>, j: int)
    requires
        0 <= j <= s.len(),
        forall|t: int| 0 <= t < s.len() ==> (#[trigger] s[t]).remaining_units() >= 0,
    ensures
        sum_remaining(s.take(j)) <= sum_remaining(s),
    decreases s.len() - j,
{
    if j == s.len() {
        assert(s.take(j) =~= s);
    } else {
        assert(s.take(j + 1).drop_last() =~= s.take(j));
        assert(s.take(j + 1).last() == s[j]);
        lemma_sum_prefix_le(s, j + 1);
    }
}

/// `a` is strictly better than `b` from the book's viewpoint on `side`:
/// higher for bids, lower for asks.
pub open spec fn better_price(side: OrderSide, a: int, b: int) -> bool {
    match side {
        OrderSide::Bid => a > b,
        OrderSide::Ask => a < b,
    }
}

/// One side of a book: well-formed, uniform, non-empty levels, best first,
/// strictly sorted (so prices are distinct).
pub open spec fn levels_wf(ls: Seq<PriceLevel>, side: OrderSide, symbol_id: int) -> bool {
    &&& forall|i: int|
        0 <= i < ls.len() ==> {
            &&& (#[trigger] ls[i]).wf()
            &&& ls[i].uniform(side, symbol_id)
            &&& ls[i].distinct_ids()
            &&& ls[i].orders@.len() > 0
        }
    &&& forall|i: int, j: int|
        0 <= i < j < ls.len() ==> better_price(
            side,
            (#[trigger] ls[i]).price.units(),
            (#[trigger] ls[j]).price.units(),
        )
}

/// Whether an order with the given id rests somewhere in these levels.
pub open spec fn in_levels_id(ls: Seq<PriceLevel>, id: u64) -> bool {
    exists|i: int, j: int|
        0 <= i < ls.len() && 0 <= j < (#[trigger] ls[i]).orders@.len() && (#[trigger] ls[i].orders@[j]).id
            == id
}

/// Whether this exact order value rests somewhere in these levels.
pub open spec fn appears(ls: Seq<PriceLevel>, o: Order) -> bool {
    exists|i: int, j: int|
        0 <= i < ls.len() && 0 <= j < (#[trigger] ls[i]).orders@.len() && (#[trigger] ls[i].orders@[j])
            == o
}

/// The identity of two orders apart from fill progress and status.
pub open spec fn same_core(a: Order, b: Order) -> bool {
    &&& a.id == b.id
    &&& a.request_id == b.request_id
    &&& a.symbol_id == b.symbol_id
    &&& a.account_id == b.account_id
    &&& a.order_type == b.order_type
    &&& a.side == b.side
    &&& a.price == b.price
    &&& a.quantity == b.quantity
    &&& a.created_at == b.created_at
}

/// A book for one symbol: both sides plus an index over every order id the
/// book has accepted.
#[derive(Debug)]
pub struct OrderBook {
    pub symbol_id: i32,
    pub bids: Vec<PriceLevel>,
    pub asks: Vec<PriceLevel>,
    pub orders: std::collections::HashMap<u64, Order>,
    pub next_trade_id: u64,
}

impl OrderBook {
    /// The levels of the given side, best price first.
    pub open spec fn side_levels(&self, side: OrderSide) -> Seq<PriceLevel> {
        match side {
            OrderSide::Bid => self.bids@,
            OrderSide::Ask => self.asks@,
        }
    }

    /// Every resting order is indexed under its id with its current state.
    pub open spec fn index_covers(&self, ls: Seq<PriceLevel>) -> bool {
        forall|i: int, j: int|
            0 <= i < ls.len() && 0 <= j < (#[trigger] ls[i]).orders@.len() ==> {
                &&& self.orders@.contains_key((#[trigger] ls[i].orders@[j]).id)
                &&& self.orders@[ls[i].orders@[j].id] == ls[i].orders@[j]
            }
    }

    /// Book invariant: both sides well-formed and uncrossed (the best bid,
    /// if any, is strictly below the best ask, if any), the index mirrors
    /// every resting order, and every index entry is a sane order of this
    /// book's symbol.
    pub open spec fn wf(&self) -> bool {
        &&& levels_wf(self.bids@, OrderSide::Bid, self.symbol_id as int)
        &&& levels_wf(self.asks@, OrderSide::Ask, self.symbol_id as int)
        &&& (self.bids@.len() > 0 && self.asks@.len() > 0 ==> self.bids@[0].price.units()
            < self.asks@[0].price.units())
        &&& self.index_covers(self.bids@)
        &&& self.index_covers(self.asks@)
        &&& forall|id: u64|
            #[trigger] self.orders@.contains_key(id) ==> {
                &&& self.orders@[id].id == id
                &&& self.orders@[id].symbol_id == self.symbol_id
                &&& self.orders@[id].wf()
            }
    }

    /// An empty book.
    pub fn new(symbol_id: i32) -> (r: OrderBook)
        ensures
            r.symbol_id == symbol_id,
            r.bids@.len() == 0,
            r.asks@.len() == 0,
            r.orders@ == Map::<u64, Order>::empty(),
            r.next_trade_id == 1,
            r.wf(),
    {
        let r = OrderBook {
            symbol_id,
            bids: Vec::new(),
            asks: Vec::new(),
            orders: std::collections::HashMap::new(),
            next_trade_id: 1,
        };
        proof {
            broadcast use vstd::std_specs::hash::group_hash_axioms;
            assert(!in_levels_id(r.bids@, 0));
        }
        r
    }

    /// Best (highest) bid price, with its optimality.
    pub fn get_best_bid(&self) -> (r: Option<Decimal>)
        requires
            self.wf(),
        ensures
            match r {
                Some(p) => {
                    &&& self.bids@.len() > 0
                    &&& p == self.bids@[0].price
                    &&& forall|i: int|
                        0 <= i < self.bids@.len() ==> (#[trigger] self.bids@[i]).price.units()
                            <= p.units()
                },
                None => self.bids@.len() == 0,
            },
    {
        if self.bids.len() > 0 {
            Some(self.bids[0].price)
        } else {
            None
        }
    }

    /// Best (lowest) ask price, with its optimality.
    pub fn get_best_ask(&self) -> (r: Option<Decimal>)
        requires
            self.wf(),
        ensures
            match r {
                Some(p) => {
                    &&& self.asks@.len() > 0
                    &&& p == self.asks@[0].price
                    &&& forall|i: int|
                        0 <= i < self.asks@.len() ==> (#[trigger] self.asks@[i]).price.units()
                            >= p.units()
                },
                None => self.asks@.len() == 0,
            },
    {
        if self.asks.len() > 0 {
            Some(self.asks[0].price)
        } else {
            None
        }
    }

    /// Best ask minus best bid; `Some` exactly when both sides are
    /// non-empty (a well-formed book is never crossed, so the difference is
    /// representable).
    pub fn get_spread(&self) -> (r: Option<Decimal>)
        requires
            self.wf(),
        ensures
            r is Some <==> self.bids@.len() > 0 && self.asks@.len() > 0,
            match r {
                Some(d) => {
                    &&& d.wf()
                    &&& d.units() == self.asks@[0].price.units() - self.bids@[0].price.units()
                },
                None => self.bids@.len() == 0 || self.asks@.len() == 0,
            },
    {
        let best_bid = self.get_best_bid();
        let best_ask = self.get_best_ask();
        match (best_bid, best_ask) {
            (Some(b), Some(a)) => a.checked_sub(&b),
            _ => None,
        }
    }

    /// Top levels of both sides: `(price, total quantity)` pairs, bids
    /// descending and asks ascending, at most `levels` of each.
    pub fn get_market_depth(&self, levels: usize) -> (r: (
        Vec<(Decimal, Decimal)>,
        Vec<(Decimal, Decimal)>,
    ))
        requires
            self.wf(),
        ensures
            r.0@.len() == vstd::math::min(levels as int, self.bids@.len() as int),
            r.1@.len() == vstd::math::min(levels as int, self.asks@.len() as int),
            forall|i: int|
                0 <= i < r.0@.len() ==> #[trigger] r.0@[i] == (
                    self.bids@[i].price,
                    self.bids@[i].total_quantity,
                ),
            forall|i: int|
                0 <= i < r.1@.len() ==> #[trigger] r.1@[i] == (
                    self.asks@[i].price,
                    self.asks@[i].total_quantity,
                ),
    {
        let nb = if levels < self.bids.len() {
            levels
        } else {
            self.bids.len()
        };
        let na = if levels < self.asks.len() {
            levels
        } else {
            self.asks.len()
        };
        let mut bids: Vec<(Decimal, Decimal)> = Vec::new();
        let mut i: usize = 0;
        while i < nb
            invariant
                i <= nb <= self.bids@.len(),
                bids@.len() == i,
                forall|t: int|
                    0 <= t < i ==> #[trigger] bids@[t] == (
                        self.bids@[t].price,
                        self.bids@[t].total_quantity,
                    ),
            decreases nb - i,
        {
            bids.push((self.bids[i].price, self.bids[i].total_quantity));
            i = i + 1;
        }
        let mut asks: Vec<(Decimal, Decimal)> = Vec::new();
        let mut j: usize = 0;
        while j < na
            invariant
                j <= na <= self.asks@.len(),
                asks@.len() == j,
                forall|t: int|
                    0 <= t < j ==> #[trigger] asks@[t] == (
                        self.asks@[t].price,
                        self.asks@[t].total_quantity,
                    ),
            decreases na - j,
        {
            asks.push((self.asks[j].price, self.asks[j].total_quantity));
            j = j + 1;
        }
        (bids, asks)
    }
}

/// Total base quantity of a list of trades, in canonical units.
pub open spec fn sum_trade_qty(ts: Seq<Trade>) -> int
    decreases ts.len(),
{
    if ts.len() == 0 {
        0
    } else {
        sum_trade_qty(ts.drop_last()) + ts.last().quantity.units()
    }
}


/// The fields every emitted trade must carry: identity by side, the maker's
/// level price, bounded quantity.
pub open spec fn trade_fields(tr: Trade, taker: Order, mk: Order, price: Decimal, tid: int, now_ms: u64) -> bool {
    &&& tr.wf()
    &&& tr.id == tid
    &&& tr.symbol_id == taker.symbol_id
    &&& tr.created_at == now_ms
    &&& tr.price == price
    &&& tr.quantity.units() <= mk.remaining_units()
    &&& (match taker.side {
        OrderSide::Bid => tr.buy_order_id == taker.id && tr.buy_account_id == taker.account_id
            && tr.sell_order_id == mk.id && tr.sell_account_id == mk.account_id,
        OrderSide::Ask => tr.sell_order_id == taker.id && tr.sell_account_id == taker.account_id
            && tr.buy_order_id == mk.id && tr.buy_account_id == mk.account_id,
    })
}

/// How a consumed maker's index entry relates to its old state and to the
/// level it may still head.
pub open spec fn entry_updated(e: Order, mk: Order, lvl: Seq<Order>) -> bool {
    &&& same_core(e, mk)
    &&& e.wf()
    &&& (e.is_open() <==> e.remaining_units() > 0)
    &&& (e.is_open() ==> lvl.len() > 0 && lvl[0] == e)
    &&& (!e.is_open() ==> e.status == OrderStatus::Filled)
}

/// Whether some order in `s` carries the given id.
pub open spec fn id_in(s: Seq<Order>, id: u64) -> bool {
    exists|j: int| 0 <= j < s.len() && (#[trigger] s[j]).id == id
}

/// The taker's identity is untouched by matching.
pub open spec fn taker_preserved(a: Order, b: Order) -> bool {
    &&& same_core(a, b)
    &&& a.status == b.status
    &&& a.wf()
}

/// Match the taker against the order at the head of `level`: fill
/// `min(remaining(taker), remaining(maker))`, emit one trade at the level's
/// price, and reflect the maker's new state in the level and the index.
fn match_one(
    level: &mut PriceLevel,
    taker: &mut Order,
    index: &mut std::collections::HashMap<u64, Order>,
    tid: u64,
    now_ms: u64,
    Ghost(sym): Ghost<int>,
) -> (t: Trade)
    requires
        old(level).wf(),
        old(level).orders@.len() > 0,
        old(level).uniform(opposite(old(taker).side), sym),
        old(level).distinct_ids(),
        old(taker).wf(),
        old(taker).remaining_units() > 0,
        old(taker).symbol_id == sym,
        old(index)@.contains_key(old(level).orders@[0].id),
    ensures
        ({
            let maker0 = old(level).orders@[0];
            let fill = if old(taker).remaining_units() <= maker0.remaining_units() {
                old(taker).remaining_units()
            } else {
                maker0.remaining_units()
            };
            let consumed = maker0.remaining_units() <= old(taker).remaining_units();
            &&& trade_fields(t, *old(taker), maker0, old(level).price, tid as int, now_ms)
            &&& t.quantity.units() == fill
            &&& taker_preserved(*final(taker), *old(taker))
            &&& final(taker).filled_quantity.units() == old(taker).filled_quantity.units() + fill
            &&& final(level).price == old(level).price
            &&& final(level).wf()
            &&& final(level).uniform(opposite(old(taker).side), sym)
            &&& final(level).distinct_ids()
            &&& final(level).total_quantity.units() == old(level).total_quantity.units() - fill
            &&& (if consumed {
                final(level).orders@ == old(level).orders@.drop_first()
            } else {
                &&& final(level).orders@.len() == old(level).orders@.len()
                &&& final(taker).remaining_units() == 0
                &&& (forall|j: int|
                    1 <= j < old(level).orders@.len() ==> #[trigger] final(level).orders@[j] == old(
                        level,
                    ).orders@[j])
            })
            &&& final(index)@.dom() == old(index)@.dom()
            &&& (forall|id: u64|
                old(index)@.contains_key(id) && id != maker0.id ==> final(index)@[id] == old(
                    index,
                )@[id])
            &&& final(index)@.contains_key(maker0.id)
            &&& entry_updated(final(index)@[maker0.id], maker0, final(level).orders@)
            &&& final(index)@[maker0.id].filled_quantity.units() == maker0.filled_quantity.units()
                + fill
        }),
{
    proof {
        lemma_sum_remaining_head(old(level).orders@);
    }
    let mut maker = self_remove_front(level);
    let rt = taker.remaining_quantity();
    let rm = maker.remaining_quantity();
    let fill = rt.min(&rm);
    match taker.filled_quantity.checked_add(&fill) {
        Some(tf) => {
            taker.filled_quantity = tf;
        },
        None => {
            proof {
                assert(false);
            }
        },
    }
    match maker.filled_quantity.checked_add(&fill) {
        Some(mf) => {
            maker.filled_quantity = mf;
        },
        None => {
            proof {
                assert(false);
            }
        },
    }
    let consumed = maker.is_filled();
    if consumed {
        maker.status = OrderStatus::Filled;
    } else {
        maker.status = OrderStatus::Partial;
        level.orders.insert(0, maker);
        proof {
            assert(level.orders@.drop_first() =~= old(level).orders@.drop_first());
            lemma_sum_remaining_head(level.orders@);
        }
    }
    match level.total_quantity.checked_sub(&fill) {
        Some(nt) => {
            level.total_quantity = nt;
        },
        None => {
            proof {
                assert(false);
            }
        },
    }
    index.insert(maker.id, maker);
    let trade = match taker.side {
        OrderSide::Bid => Trade {
            id: tid,
            symbol_id: taker.symbol_id,
            buy_order_id: taker.id,
            sell_order_id: maker.id,
            buy_account_id: taker.account_id,
            sell_account_id: maker.account_id,
            price: level.price,
            quantity: fill,
            created_at: now_ms,
        },
        OrderSide::Ask => Trade {
            id: tid,
            symbol_id: taker.symbol_id,
            buy_order_id: maker.id,
            sell_order_id: taker.id,
            buy_account_id: maker.account_id,
            sell_account_id: taker.account_id,
            price: level.price,
            quantity: fill,
            created_at: now_ms,
        },
    };
    trade
}

/// Take the head order out of a level's queue (total left untouched: the
/// caller re-balances it).
fn self_remove_front(level: &mut PriceLevel) -> (r: Order)
    requires
        old(level).orders@.len() > 0,
    ensures
        r == old(level).orders@[0],
        final(level).orders@ == old(level).orders@.drop_first(),
        final(level).price == old(level).price,
        final(level).total_quantity == old(level).total_quantity,
{
    let r = level.orders.remove(0);
    proof {
        assert(level.orders@ =~= old(level).orders@.drop_first());
    }
    r
}

/// Consume the head of `level` repeatedly, in queue order, until the taker
/// is filled or the level is empty.  Trade `t` is made against the level's
/// `t`-th queued order: earlier arrivals fill first.
#[verifier::rlimit(100)]
#[verifier::spinoff_prover]
pub fn fill_level(
    level: &mut PriceLevel,
    taker: &mut Order,
    index: &mut std::collections::HashMap<u64, Order>,
    tid_start: u64,
    now_ms: u64,
    Ghost(sym): Ghost<int>,
) -> (trades: Vec<Trade>)
    requires
        old(level).wf(),
        old(level).uniform(opposite(old(taker).side), sym),
        old(level).distinct_ids(),
        old(taker).wf(),
        old(taker).symbol_id == sym,
        forall|j: int|
            0 <= j < old(level).orders@.len() ==> old(index)@.contains_key(
                (#[trigger] old(level).orders@[j]).id,
            ) && old(index)@[old(level).orders@[j].id] == old(level).orders@[j],
        tid_start + old(level).orders@.len() <= u64::MAX,
    ensures
        ({
            let q = trades@.len() as int;
            &&& q <= old(level).orders@.len()
            &&& final(level).price == old(level).price
            &&& final(level).wf()
            &&& final(level).uniform(opposite(old(taker).side), sym)
            &&& final(level).distinct_ids()
            &&& taker_preserved(*final(taker), *old(taker))
            &&& final(taker).filled_quantity.units() == old(taker).filled_quantity.units()
                + sum_trade_qty(trades@)
            &&& (final(taker).remaining_units() == 0 || final(level).orders@.len() == 0)
            &&& (forall|t: int|
                0 <= t < q ==> trade_fields(
                    #[trigger] trades@[t],
                    *old(taker),
                    old(level).orders@[t],
                    old(level).price,
                    tid_start + t,
                    now_ms,
                ))
            &&& (forall|t: int|
                0 <= t < q - 1 ==> (#[trigger] trades@[t]).quantity.units() == old(
                    level,
                ).orders@[t].remaining_units())
            &&& (forall|j: int|
                q <= j < old(level).orders@.len() ==> final(level).orders@.contains(
                    #[trigger] old(level).orders@[j],
                ))
            &&& (forall|j2: int|
                0 <= j2 < final(level).orders@.len() ==> final(index)@.contains_key(
                    (#[trigger] final(level).orders@[j2]).id,
                ) && final(index)@[final(level).orders@[j2].id] == final(level).orders@[j2])
            &&& final(index)@.dom() == old(index)@.dom()
            &&& (forall|id: u64|
                old(index)@.contains_key(id) && !id_in(old(level).orders@.take(q), id)
                    ==> final(index)@[id] == old(index)@[id])
            &&& (forall|t: int|
                0 <= t < q ==> final(index)@.contains_key((#[trigger] old(level).orders@[t]).id)
                    && entry_updated(
                    final(index)@[old(level).orders@[t].id],
                    old(level).orders@[t],
                    final(level).orders@,
                ))
        }),
    decreases old(level).orders@.len(),
{
    let ghost oldo = old(level).orders@;
    let taker_done = taker.is_filled();
    if taker_done || level.is_empty() {
        let trades: Vec<Trade> = Vec::new();
        proof {
            assert forall|j: int| 0 <= j < oldo.len() implies level.orders@.contains(
                #[trigger] oldo[j],
            ) by {
                assert(level.orders@[j] == oldo[j]);
            }
        }
        return trades;
    }
    let head = level.orders[0];
    let head_rem = head.remaining_quantity();
    let taker_rem = taker.remaining_quantity();
    let consumed = head_rem.le(&taker_rem);
    let tr = match_one(level, taker, index, tid_start, now_ms, Ghost(sym));
    let ghost maker0 = oldo[0];
    let ghost level1 = *level;
    let ghost taker1 = *taker;
    let ghost index1 = index@;
    if !consumed {
        // the taker was exhausted by a partial fill of the head maker
        let mut trades: Vec<Trade> = Vec::new();
        trades.push(tr);
        proof {
            assert(trades@ =~= seq![tr]);
            assert(trades@.drop_last() =~= Seq::<Trade>::empty());
            assert(sum_trade_qty(Seq::<Trade>::empty()) == 0);
            assert(trades@.last() == tr);
            assert(sum_trade_qty(trades@) == tr.quantity.units());
            assert(taker1.remaining_units() == 0);
            assert forall|j: int| 1 <= j < oldo.len() implies level1.orders@.contains(
                #[trigger] oldo[j],
            ) by {
                assert(level1.orders@[j] == oldo[j]);
            }
            assert forall|j2: int| 0 <= j2 < level1.orders@.len() implies index1.contains_key(
                (#[trigger] level1.orders@[j2]).id,
            ) && index1[level1.orders@[j2].id] == level1.orders@[j2] by {
                if j2 == 0 {
                    let e = index1[maker0.id];
                    assert(e.is_open());
                    assert(level1.orders@[0] == e);
                } else {
                    assert(level1.orders@[j2] == oldo[j2]);
                    assert(oldo[j2].id != maker0.id);
                }
            }
            assert forall|id: u64|
                old(index)@.contains_key(id) && !id_in(oldo.take(1), id) implies index1[id]
                == old(index)@[id] by {
                assert(oldo.take(1)[0] == oldo[0]);
                assert(id != maker0.id);
            }
        }
        return trades;
    }
    proof {
        // the head maker was fully consumed and removed
        assert(level1.orders@ == oldo.drop_first());
        assert forall|j: int|
            0 <= j < level1.orders@.len() implies index1.contains_key(
                (#[trigger] level1.orders@[j]).id,
            ) && index1[level1.orders@[j].id] == level1.orders@[j] by {
            assert(level1.orders@[j] == oldo[j + 1]);
            assert(oldo[j + 1].id != maker0.id);
        }
    }
    let mut rest = fill_level(level, taker, index, tid_start + 1, now_ms, Ghost(sym));
    let ghost rest0 = rest@;
    let ghost level2 = *level;
    let ghost index2 = index@;
    rest.insert(0, tr);
    proof {
        let q = rest@.len() as int;
        let q1 = rest0.len() as int;
        assert(rest@ =~= seq![tr] + rest0);
        assert(rest@.drop_first() =~= rest0);
        lemma_sum_trade_head(rest@);
        assert(forall|j: int|
            0 <= j < level1.orders@.len() ==> #[trigger] level1.orders@[j] == oldo[j + 1]);
        // each later trade consumes the corresponding later maker
        assert forall|t: int| 1 <= t < q implies trade_fields(
            #[trigger] rest@[t],
            *old(taker),
            oldo[t],
            old(level).price,
            tid_start + t,
            now_ms,
        ) by {
            assert(rest@[t] == rest0[t - 1]);
            assert(level1.orders@[t - 1] == oldo[t]);
            assert(trade_fields(rest0[t - 1], taker1, oldo[t], level1.price,
                tid_start + 1 + (t - 1), now_ms));
        }
        assert forall|t: int| 0 <= t < q - 1 implies (#[trigger] rest@[t]).quantity.units()
            == oldo[t].remaining_units() by {
            if t == 0 {
                assert(rest@[0] == tr);
            } else {
                assert(rest@[t] == rest0[t - 1]);
                assert(level1.orders@[t - 1] == oldo[t]);
            }
        }
        // survivors of the whole call
        assert forall|j: int| q <= j < oldo.len() implies level2.orders@.contains(
            #[trigger] oldo[j],
        ) by {
            assert(level1.orders@[j - 1] == oldo[j]);
        }
        // untouched index entries
        assert forall|id: u64|
            old(index)@.contains_key(id) && !id_in(oldo.take(q), id) implies index2[id] == old(
            index,
        )@[id] by {
            assert(oldo.take(q)[0] == oldo[0]);
            assert(id != maker0.id);
            assert(!id_in(level1.orders@.take(q1), id)) by {
                if id_in(level1.orders@.take(q1), id) {
                    let t2 = choose|t2: int|
                        0 <= t2 < level1.orders@.take(q1).len() && (#[trigger] level1.orders@.take(
                            q1,
                        )[t2]).id == id;
                    assert(oldo.take(q)[t2 + 1] == oldo[t2 + 1]);
                    assert(oldo.take(q)[t2 + 1].id == id);
                    assert(id_in(oldo.take(q), id));
                }
            }
        }
        // consumed makers' index entries
        assert forall|t: int| 0 <= t < q implies index2.contains_key((#[trigger] oldo[t]).id)
            && entry_updated(index2[oldo[t].id], oldo[t], level2.orders@) by {
            if t == 0 {
                // the head maker was fully consumed by `tr`; its entry was
                // written once and no later step touches that id
                let e1 = index1[maker0.id];
                assert(entry_updated(e1, maker0, level1.orders@));
                assert(e1.remaining_units() == 0);
                assert(!e1.is_open());
                assert(!id_in(level1.orders@.take(q1), maker0.id)) by {
                    if id_in(level1.orders@.take(q1), maker0.id) {
                        let t2 = choose|t2: int|
                            0 <= t2 < level1.orders@.take(q1).len() && (
                            #[trigger] level1.orders@.take(q1)[t2]).id == maker0.id;
                        assert(level1.orders@[t2] == oldo[t2 + 1]);
                        assert(oldo[t2 + 1].id != oldo[0].id);
                        assert(false);
                    }
                }
                assert(index2[maker0.id] == e1);
            } else {
                assert(level1.orders@[t - 1] == oldo[t]);
            }
        }
    }
    rest
}

/// The head trade's quantity plus the rest equals the total.
pub proof fn lemma_sum_trade_head(ts: Seq<Trade>)
    requires
        ts.len() > 0,
    ensures
        sum_trade_qty(ts) == ts[0].quantity.units() + sum_trade_qty(ts.drop_first()),
    decreases ts.len(),
{
    if ts.len() == 1 {
        assert(ts.drop_first() =~= Seq::<Trade>::empty());
        assert(ts.drop_last() =~= Seq::<Trade>::empty());
    } else {
        lemma_sum_trade_head(ts.drop_last());
        assert(ts.drop_last()[0] == ts[0]);
        assert(ts.drop_first().drop_last() =~= ts.drop_last().drop_first());
        assert(ts.drop_first().last() == ts.last());
    }
}

/// The trade fields determined by the taker alone.
pub open spec fn trade_taker_fields(tr: Trade, taker: Order, tid: int, now_ms: u64) -> bool {
    &&& tr.wf()
    &&& tr.id == tid
    &&& tr.symbol_id == taker.symbol_id
    &&& tr.created_at == now_ms
    &&& (match taker.side {
        OrderSide::Bid => tr.buy_order_id == taker.id && tr.buy_account_id == taker.account_id,
        OrderSide::Ask => tr.sell_order_id == taker.id && tr.sell_account_id == taker.account_id,
    })
}

/// The maker's order id in a trade, given the taker's side.
pub open spec fn maker_oid(tr: Trade, taker_side: OrderSide) -> u64 {
    match taker_side {
        OrderSide::Bid => tr.sell_order_id,
        OrderSide::Ask => tr.buy_order_id,
    }
}

/// The maker's account id in a trade, given the taker's side.
pub open spec fn maker_aid(tr: Trade, taker_side: OrderSide) -> i32 {
    match taker_side {
        OrderSide::Bid => tr.sell_account_id,
        OrderSide::Ask => tr.buy_account_id,
    }
}

/// What a trade says about the maker it consumed, checked against the
/// book's index before the call: the maker was resting, open, on the
/// opposite side, at the trade's price, with at least the traded quantity
/// left.
pub open spec fn maker_evidence(tr: Trade, side: OrderSide, m: Map<u64, Order>, ls: Seq<PriceLevel>) -> bool {
    let mid = maker_oid(tr, side);
    &&& m.contains_key(mid)
    &&& in_levels_id(ls, mid)
    &&& m[mid].price.units() == tr.price.units()
    &&& m[mid].account_id == maker_aid(tr, side)
    &&& m[mid].side == opposite(side)
    &&& m[mid].is_open()
    &&& tr.quantity.units() <= m[mid].remaining_units()
}

/// Whether a taker may trade at price `p`: market orders always, limit
/// orders only within their limit.
pub open spec fn price_eligible(taker: Order, p: int) -> bool {
    taker.order_type == OrderType::Market || (match taker.side {
        OrderSide::Bid => p <= taker.price.units(),
        OrderSide::Ask => p >= taker.price.units(),
    })
}

/// Trade prices never get better for the maker as the sweep advances:
/// non-decreasing for a bid taker, non-increasing for an ask taker.
pub open spec fn prices_monotone(ts: Seq<Trade>, taker_side: OrderSide) -> bool {
    forall|t1: int, t2: int|
        0 <= t1 <= t2 < ts.len() ==> (match taker_side {
            OrderSide::Bid => (#[trigger] ts[t1]).price.units() <= (#[trigger] ts[t2]).price.units(),
            OrderSide::Ask => (#[trigger] ts[t1]).price.units() >= (#[trigger] ts[t2]).price.units(),
        })
}

/// The index holds every order resting in these levels, under its id, with
/// its current state.
pub open spec fn covers(m: Map<u64, Order>, ls: Seq<PriceLevel>) -> bool {
    forall|i: int, j: int|
        0 <= i < ls.len() && 0 <= j < (#[trigger] ls[i]).orders@.len() ==> {
            &&& m.contains_key((#[trigger] ls[i].orders@[j]).id)
            &&& m[ls[i].orders@[j].id] == ls[i].orders@[j]
        }
}

/// Number of orders resting across all levels of one side.
pub open spec fn total_orders(ls: Seq<PriceLevel>) -> int
    decreases ls.len(),
{
    if ls.len() == 0 {
        0
    } else {
        total_orders(ls.drop_last()) + ls.last().orders@.len()
    }
}

/// Totals of order counts are non-negative.
pub proof fn lemma_total_orders_nonneg(ls: Seq<PriceLevel>)
    ensures
        total_orders(ls) >= 0,
    decreases ls.len(),
{
    if ls.len() > 0 {
        lemma_total_orders_nonneg(ls.drop_last());
    }
}

/// The head level's queue counts into the total.
pub proof fn lemma_total_orders_head(ls: Seq<PriceLevel>)
    requires
        ls.len() > 0,
    ensures
        total_orders(ls) == ls[0].orders@.len() + total_orders(ls.drop_first()),
        total_orders(ls) >= 0,
    decreases ls.len(),
{
    if ls.len() == 1 {
        assert(ls.drop_first() =~= Seq::<PriceLevel>::empty());
        assert(ls.drop_last() =~= Seq::<PriceLevel>::empty());
    } else {
        lemma_total_orders_head(ls.drop_last());
        assert(ls.drop_last()[0] == ls[0]);
        assert(ls.drop_first().drop_last() =~= ls.drop_last().drop_first());
        assert(ls.drop_first().last() == ls.last());
    }
}

/// With a covering index and strictly sorted levels, an order id cannot
/// appear in two different levels of one side.
pub proof fn lemma_cross_level_ids(
    ls: Seq<PriceLevel>,
    m: Map<u64, Order>,
    side: OrderSide,
    sym: int,
    i1: int,
    j1: int,
    i2: int,
    j2: int,
)
    requires
        levels_wf(ls, side, sym),
        covers(m, ls),
        0 <= i1 < ls.len(),
        0 <= j1 < ls[i1].orders@.len(),
        0 <= i2 < ls.len(),
        0 <= j2 < ls[i2].orders@.len(),
        i1 != i2,
    ensures
        ls[i1].orders@[j1].id != ls[i2].orders@[j2].id,
{
    if ls[i1].orders@[j1].id == ls[i2].orders@[j2].id {
        let o1 = ls[i1].orders@[j1];
        let o2 = ls[i2].orders@[j2];
        assert(m[o1.id] == o1);
        assert(m[o2.id] == o2);
        assert(o1 == o2);
        assert(o1.price.units() == ls[i1].price.units());
        assert(o2.price.units() == ls[i2].price.units());
        if i1 < i2 {
            assert(better_price(side, ls[i1].price.units(), ls[i2].price.units()));
        } else {
            assert(better_price(side, ls[i2].price.units(), ls[i1].price.units()));
        }
        assert(false);
    }
}


/// After the head level is filled, the index still mirrors the remaining
/// levels: untouched levels kept their (untouched) entries, and the filled
/// level's survivors were re-synced by the fill.
proof fn lemma_covers_after_fill(
    oldls: Seq<PriceLevel>,
    m0: Map<u64, Order>,
    m1: Map<u64, Order>,
    lvl1: PriceLevel,
    q1: int,
    side: OrderSide,
    sym: int,
)
    requires
        levels_wf(oldls, side, sym),
        covers(m0, oldls),
        oldls.len() > 0,
        0 <= q1 <= oldls[0].orders@.len(),
        m1.dom() == m0.dom(),
        forall|id: u64|
            m0.contains_key(id) && !id_in(oldls[0].orders@.take(q1), id) ==> m1[id] == m0[id],
        forall|j2: int|
            0 <= j2 < lvl1.orders@.len() ==> m1.contains_key((#[trigger] lvl1.orders@[j2]).id)
                && m1[lvl1.orders@[j2].id] == lvl1.orders@[j2],
    ensures
        covers(m1, oldls.drop_first()),
        covers(m1, oldls.drop_first().insert(0, lvl1)),
{
    let mid = oldls.drop_first();
    assert forall|i: int, j: int|
        0 <= i < mid.len() && 0 <= j < (#[trigger] mid[i]).orders@.len() implies ({
        &&& m1.contains_key((#[trigger] mid[i].orders@[j]).id)
        &&& m1[mid[i].orders@[j].id] == mid[i].orders@[j]
    }) by {
        assert(mid[i] == oldls[i + 1]);
        assert(!id_in(oldls[0].orders@.take(q1), mid[i].orders@[j].id)) by {
            if id_in(oldls[0].orders@.take(q1), mid[i].orders@[j].id) {
                let t2 = choose|t2: int|
                    0 <= t2 < oldls[0].orders@.take(q1).len() && (
                    #[trigger] oldls[0].orders@.take(q1)[t2]).id == mid[i].orders@[j].id;
                lemma_cross_level_ids(oldls, m0, side, sym, 0, t2, i + 1, j);
            }
        }
    }
    let ins = mid.insert(0, lvl1);
    assert forall|i: int, j: int|
        0 <= i < ins.len() && 0 <= j < (#[trigger] ins[i]).orders@.len() implies ({
        &&& m1.contains_key((#[trigger] ins[i].orders@[j]).id)
        &&& m1[ins[i].orders@[j].id] == ins[i].orders@[j]
    }) by {
        if i == 0 {
            assert(ins[0] == lvl1);
        } else {
            assert(ins[i] == mid[i - 1]);
        }
    }
}

/// After the head level is filled, every index entry is still well-formed,
/// keeps its identity, and entries of orders outside the touched side are
/// byte-for-byte unchanged.
proof fn lemma_entries_wf_after_fill(
    oldls: Seq<PriceLevel>,
    m0: Map<u64, Order>,
    m1: Map<u64, Order>,
    lvl1: PriceLevel,
    q1: int,
)
    requires
        oldls.len() > 0,
        0 <= q1 <= oldls[0].orders@.len(),
        m1.dom() == m0.dom(),
        covers(m0, oldls),
        forall|id: u64| m0.contains_key(id) ==> (#[trigger] m0[id]).wf(),
        forall|id: u64|
            m0.contains_key(id) && !id_in(oldls[0].orders@.take(q1), id) ==> m1[id] == m0[id],
        forall|t: int|
            0 <= t < q1 ==> m1.contains_key((#[trigger] oldls[0].orders@[t]).id) && entry_updated(
                m1[oldls[0].orders@[t].id],
                oldls[0].orders@[t],
                lvl1.orders@,
            ),
    ensures
        forall|id: u64|
            m1.contains_key(id) ==> (#[trigger] m1[id]).wf() && same_core(m1[id], m0[id]),
        forall|id: u64|
            m0.contains_key(id) && !in_levels_id(oldls, id) ==> m1[id] == m0[id],
{
    assert forall|id: u64| m1.contains_key(id) implies (#[trigger] m1[id]).wf() && same_core(
        m1[id],
        m0[id],
    ) by {
        if id_in(oldls[0].orders@.take(q1), id) {
            let t2 = choose|t2: int|
                0 <= t2 < oldls[0].orders@.take(q1).len() && (
                #[trigger] oldls[0].orders@.take(q1)[t2]).id == id;
            assert(entry_updated(m1[id], oldls[0].orders@[t2], lvl1.orders@));
            assert(m0[id] == oldls[0].orders@[t2]);
        } else {
            assert(m1[id] == m0[id]);
        }
    }
    assert forall|id: u64|
        m0.contains_key(id) && !in_levels_id(oldls, id) implies m1[id] == m0[id] by {
        if id_in(oldls[0].orders@.take(q1), id) {
            let t2 = choose|t2: int|
                0 <= t2 < oldls[0].orders@.take(q1).len() && (
                #[trigger] oldls[0].orders@.take(q1)[t2]).id == id;
            assert(oldls[0].orders@[t2].id == id);
            assert(in_levels_id(oldls, id));
            assert(false);
        }
    }
}

/// Index entries of orders that no trade consumed are byte-for-byte
/// unchanged.
#[verifier::opaque]
pub open spec fn makers_frame(
    m0: Map<u64, Order>,
    trades: Seq<Trade>,
    side: OrderSide,
    m1: Map<u64, Order>,
) -> bool {
    forall|id: u64|
        m0.contains_key(id) && (forall|t: int|
            0 <= t < trades.len() ==> id != maker_oid(#[trigger] trades[t], side))
            ==> #[trigger] m1[id] == m0[id]
}

/// Resting orders that no trade consumed still rest, unchanged.
#[verifier::opaque]
pub open spec fn survivors_rest(
    ls0: Seq<PriceLevel>,
    trades: Seq<Trade>,
    side: OrderSide,
    ls1: Seq<PriceLevel>,
) -> bool {
    forall|i: int, j: int|
        #![trigger ls0[i].orders@[j]]
        0 <= i < ls0.len() && 0 <= j < ls0[i].orders@.len() && (forall|t: int|
            0 <= t < trades.len() ==> ls0[i].orders@[j].id != maker_oid(
                #[trigger] trades[t],
                side,
            )) ==> appears(ls1, ls0[i].orders@[j])
}

/// Two trades at one price consumed makers of one level in queue order.
#[verifier::opaque]
pub open spec fn queue_ordered(ls0: Seq<PriceLevel>, trades: Seq<Trade>, side: OrderSide) -> bool {
    forall|t1: int, t2: int|
        0 <= t1 < t2 < trades.len() && (#[trigger] trades[t1]).price.units() == (
        #[trigger] trades[t2]).price.units() ==> exists|i: int, j1: int, j2: int|
            #![trigger ls0[i].orders@[j1], ls0[i].orders@[j2]]
            0 <= i < ls0.len() && 0 <= j1 < j2 < ls0[i].orders@.len() && ls0[i].orders@[j1].id
                == maker_oid(trades[t1], side) && ls0[i].orders@[j2].id == maker_oid(
                trades[t2],
                side,
            )
}

/// The frame, survivor and queue-order facts when only the head level was
/// consumed (the taker stopped there): `ls1` is the tail levels with the
/// partially consumed head either reinserted or dropped empty.
proof fn lemma_head_frames(
    oldls: Seq<PriceLevel>,
    ls1: Seq<PriceLevel>,
    m0: Map<u64, Order>,
    m1: Map<u64, Order>,
    trades: Seq<Trade>,
    taker: Order,
    tid_start: int,
    now_ms: u64,
    lvl1: PriceLevel,
    reinserted: bool,
)
    requires
        oldls.len() > 0,
        trades.len() <= oldls[0].orders@.len(),
        forall|t: int|
            0 <= t < trades.len() ==> trade_fields(
                #[trigger] trades[t],
                taker,
                oldls[0].orders@[t],
                oldls[0].price,
                tid_start + t,
                now_ms,
            ),
        forall|id: u64|
            m0.contains_key(id) && !id_in(
                oldls[0].orders@.take(trades.len() as int),
                id,
            ) ==> m1[id] == m0[id],
        forall|j: int|
            trades.len() <= j < oldls[0].orders@.len() ==> lvl1.orders@.contains(
                #[trigger] oldls[0].orders@[j],
            ),
        reinserted ==> ls1 == oldls.drop_first().insert(0, lvl1),
        !reinserted ==> ls1 == oldls.drop_first() && lvl1.orders@.len() == 0,
    ensures
        makers_frame(m0, trades, taker.side, m1),
        survivors_rest(oldls, trades, taker.side, ls1),
        queue_ordered(oldls, trades, taker.side),
{
    let side = taker.side;
    let q1 = trades.len() as int;
    assert(makers_frame(m0, trades, side, m1)) by {
        reveal(makers_frame);
        assert forall|id: u64|
            m0.contains_key(id) && (forall|t: int|
                0 <= t < trades.len() ==> id != maker_oid(#[trigger] trades[t], side)) implies
            #[trigger] m1[id] == m0[id] by {
            lemma_not_consumed(oldls, trades, taker, tid_start, now_ms, id);
        }
    }
    assert(survivors_rest(oldls, trades, side, ls1)) by {
        reveal(survivors_rest);
        assert forall|i: int, j: int|
            #![trigger oldls[i].orders@[j]]
            0 <= i < oldls.len() && 0 <= j < oldls[i].orders@.len() && (forall|t: int|
                0 <= t < trades.len() ==> oldls[i].orders@[j].id != maker_oid(
                    #[trigger] trades[t],
                    side,
                )) implies appears(ls1, oldls[i].orders@[j]) by {
            if i == 0 {
                assert(q1 <= j) by {
                    if j < q1 {
                        assert(trade_fields(trades[j], taker, oldls[0].orders@[j], oldls[0].price,
                            tid_start + j, now_ms));
                        assert(maker_oid(trades[j], side) == oldls[0].orders@[j].id);
                    }
                }
                assert(lvl1.orders@.contains(oldls[0].orders@[j]));
                if reinserted {
                    let j2 = choose|j2: int|
                        0 <= j2 < lvl1.orders@.len() && #[trigger] lvl1.orders@[j2] == oldls[0].orders@[j];
                    assert(ls1[0].orders@[j2] == oldls[0].orders@[j]);
                } else {
                    assert(false);
                }
            } else {
                if reinserted {
                    assert(ls1[i].orders@[j] == oldls[i].orders@[j]);
                } else {
                    assert(ls1[i - 1].orders@[j] == oldls[i].orders@[j]);
                }
            }
        }
    }
    assert(queue_ordered(oldls, trades, side)) by {
        reveal(queue_ordered);
        assert forall|t1: int, t2: int|
            0 <= t1 < t2 < trades.len() && (#[trigger] trades[t1]).price.units() == (
            #[trigger] trades[t2]).price.units() implies exists|i: int, j1: int, j2: int|
            #![trigger oldls[i].orders@[j1], oldls[i].orders@[j2]]
            0 <= i < oldls.len() && 0 <= j1 < j2 < oldls[i].orders@.len()
                && oldls[i].orders@[j1].id == maker_oid(trades[t1], side)
                && oldls[i].orders@[j2].id == maker_oid(trades[t2], side) by {
            assert(trade_fields(trades[t1], taker, oldls[0].orders@[t1], oldls[0].price,
                tid_start + t1, now_ms));
            assert(trade_fields(trades[t2], taker, oldls[0].orders@[t2], oldls[0].price,
                tid_start + t2, now_ms));
            assert(oldls[0].orders@[t1].id == maker_oid(trades[t1], side));
            assert(oldls[0].orders@[t2].id == maker_oid(trades[t2], side));
        }
    }
}

/// The frame, survivor and queue-order facts composed across the fully
/// consumed head level and the recursive sweep of the remaining levels.
proof fn lemma_rec_frames(
    oldls: Seq<PriceLevel>,
    levels_mid: Seq<PriceLevel>,
    ls1: Seq<PriceLevel>,
    m0: Map<u64, Order>,
    index1: Map<u64, Order>,
    m1: Map<u64, Order>,
    trades1: Seq<Trade>,
    more0: Seq<Trade>,
    trades: Seq<Trade>,
    taker: Order,
    tid_start: int,
    now_ms: u64,
    sym: int,
)
    requires
        oldls.len() > 0,
        levels_mid == oldls.drop_first(),
        levels_wf(oldls, opposite(taker.side), sym),
        trades1.len() == oldls[0].orders@.len(),
        trades == trades1 + more0,
        forall|t: int|
            0 <= t < trades1.len() ==> trade_fields(
                #[trigger] trades1[t],
                taker,
                oldls[0].orders@[t],
                oldls[0].price,
                tid_start + t,
                now_ms,
            ),
        forall|id: u64|
            m0.contains_key(id) && !id_in(
                oldls[0].orders@.take(trades1.len() as int),
                id,
            ) ==> index1[id] == m0[id],
        index1.dom() == m0.dom(),
        makers_frame(index1, more0, taker.side, m1),
        survivors_rest(levels_mid, more0, taker.side, ls1),
        queue_ordered(levels_mid, more0, taker.side),
        forall|t: int|
            0 <= t < more0.len() ==> exists|i: int|
                0 <= i < levels_mid.len() && (#[trigger] more0[t]).price == levels_mid[i].price,
    ensures
        makers_frame(m0, trades, taker.side, m1),
        survivors_rest(oldls, trades, taker.side, ls1),
        queue_ordered(oldls, trades, taker.side),
{
    let side = taker.side;
    let q1 = trades1.len() as int;
    let q = trades.len() as int;
    assert(makers_frame(m0, trades, side, m1)) by {
        reveal(makers_frame);
        assert forall|id: u64|
            m0.contains_key(id) && (forall|t: int|
                0 <= t < trades.len() ==> id != maker_oid(#[trigger] trades[t], side)) implies
            #[trigger] m1[id] == m0[id] by {
            assert(forall|t: int| 0 <= t < q1 ==> trades[t] == trades1[t]);
            assert(forall|t: int| 0 <= t < q1 ==> id != maker_oid(#[trigger] trades1[t], side));
            lemma_not_consumed(oldls, trades1, taker, tid_start, now_ms, id);
            assert(index1[id] == m0[id]);
            assert forall|t: int| 0 <= t < more0.len() implies id != maker_oid(
                #[trigger] more0[t],
                side,
            ) by {
                assert(trades[q1 + t] == more0[t]);
                assert(id != maker_oid(trades[q1 + t], side));
            }
        }
    }
    assert(survivors_rest(oldls, trades, side, ls1)) by {
        reveal(survivors_rest);
        assert forall|i: int, j: int|
            #![trigger oldls[i].orders@[j]]
            0 <= i < oldls.len() && 0 <= j < oldls[i].orders@.len() && (forall|t: int|
                0 <= t < trades.len() ==> oldls[i].orders@[j].id != maker_oid(
                    #[trigger] trades[t],
                    side,
                )) implies appears(ls1, oldls[i].orders@[j]) by {
            if i == 0 {
                assert(trades[j] == trades1[j]);
                assert(trade_fields(trades1[j], taker, oldls[0].orders@[j], oldls[0].price,
                    tid_start + j, now_ms));
                assert(maker_oid(trades[j], side) == oldls[0].orders@[j].id);
                assert(false);
            } else {
                assert(levels_mid[i - 1].orders@[j] == oldls[i].orders@[j]);
                assert forall|t: int| 0 <= t < more0.len() implies levels_mid[i
                    - 1].orders@[j].id != maker_oid(#[trigger] more0[t], side) by {
                    assert(trades[q1 + t] == more0[t]);
                    assert(oldls[i].orders@[j].id != maker_oid(trades[q1 + t], side));
                }
            }
        }
    }
    assert(queue_ordered(oldls, trades, side)) by {
        reveal(queue_ordered);
        assert forall|t1: int, t2: int|
            0 <= t1 < t2 < trades.len() && (#[trigger] trades[t1]).price.units() == (
            #[trigger] trades[t2]).price.units() implies exists|i: int, j1: int, j2: int|
            #![trigger oldls[i].orders@[j1], oldls[i].orders@[j2]]
            0 <= i < oldls.len() && 0 <= j1 < j2 < oldls[i].orders@.len()
                && oldls[i].orders@[j1].id == maker_oid(trades[t1], side)
                && oldls[i].orders@[j2].id == maker_oid(trades[t2], side) by {
            if t2 < q1 {
                assert(trade_fields(trades1[t1], taker, oldls[0].orders@[t1], oldls[0].price,
                    tid_start + t1, now_ms));
                assert(trade_fields(trades1[t2], taker, oldls[0].orders@[t2], oldls[0].price,
                    tid_start + t2, now_ms));
                assert(oldls[0].orders@[t1].id == maker_oid(trades[t1], side));
                assert(oldls[0].orders@[t2].id == maker_oid(trades[t2], side));
            } else if t1 >= q1 {
                assert(trades[t1] == more0[t1 - q1]);
                assert(trades[t2] == more0[t2 - q1]);
                let (i0, j1, j2) = choose|i0: int, j1: int, j2: int|
                    #![trigger levels_mid[i0].orders@[j1], levels_mid[i0].orders@[j2]]
                    0 <= i0 < levels_mid.len() && 0 <= j1 < j2 < levels_mid[i0].orders@.len()
                        && levels_mid[i0].orders@[j1].id == maker_oid(more0[t1 - q1], side)
                        && levels_mid[i0].orders@[j2].id == maker_oid(more0[t2 - q1], side);
                assert(levels_mid[i0] == oldls[i0 + 1]);
                assert(oldls[i0 + 1].orders@[j1].id == maker_oid(trades[t1], side));
                assert(oldls[i0 + 1].orders@[j2].id == maker_oid(trades[t2], side));
            } else {
                // different levels have different prices
                assert(trades[t1].price == oldls[0].price);
                assert(trades[t2] == more0[t2 - q1]);
                let i0 = choose|i0: int|
                    0 <= i0 < levels_mid.len() && more0[t2 - q1].price == #[trigger] levels_mid[i0].price;
                assert(oldls[i0 + 1] == levels_mid[i0]);
                assert(better_price(opposite(side), oldls[0].price.units(),
                    oldls[i0 + 1].price.units()));
                assert(false);
            }
        }
    }
}

/// An id that none of the head level's trades names as maker does not sit
/// in the consumed prefix of that level's queue.
proof fn lemma_not_consumed(
    oldls: Seq<PriceLevel>,
    trades1: Seq<Trade>,
    taker: Order,
    tid_start: int,
    now_ms: u64,
    id: u64,
)
    requires
        oldls.len() > 0,
        trades1.len() <= oldls[0].orders@.len(),
        forall|t: int|
            0 <= t < trades1.len() ==> trade_fields(
                #[trigger] trades1[t],
                taker,
                oldls[0].orders@[t],
                oldls[0].price,
                tid_start + t,
                now_ms,
            ),
        forall|t: int| 0 <= t < trades1.len() ==> id != maker_oid(#[trigger] trades1[t], taker.side),
    ensures
        !id_in(oldls[0].orders@.take(trades1.len() as int), id),
{
    let q1 = trades1.len() as int;
    if id_in(oldls[0].orders@.take(q1), id) {
        let t2 = choose|t2: int|
            0 <= t2 < oldls[0].orders@.take(q1).len() && (#[trigger] oldls[0].orders@.take(
                q1,
            )[t2]).id == id;
        assert(trade_fields(trades1[t2], taker, oldls[0].orders@[t2], oldls[0].price,
            tid_start + t2, now_ms));
        assert(maker_oid(trades1[t2], taker.side) == oldls[0].orders@[t2].id);
        assert(id != maker_oid(trades1[t2], taker.side));
        assert(false);
    }
}

/// Sweep the opposite side of the book: take the best eligible level, fill
/// it in queue order, and move to the next level until the taker is filled
/// or no eligible level remains.
#[verifier::rlimit(100)]
fn match_against(
    levels: &mut Vec<PriceLevel>,
    index: &mut std::collections::HashMap<u64, Order>,
    taker: &mut Order,
    tid_start: u64,
    now_ms: u64,
    Ghost(sym): Ghost<int>,
) -> (trades: Vec<Trade>)
    requires
        levels_wf(old(levels)@, opposite(old(taker).side), sym),
        covers(old(index)@, old(levels)@),
        forall|id: u64| old(index)@.contains_key(id) ==> (#[trigger] old(index)@[id]).wf(),
        old(taker).wf(),
        old(taker).symbol_id == sym,
        tid_start + total_orders(old(levels)@) <= u64::MAX,
    ensures
        ({
            let q = trades@.len() as int;
            let side = old(taker).side;
            &&& q <= total_orders(old(levels)@)
            &&& levels_wf(final(levels)@, opposite(side), sym)
            &&& covers(final(index)@, final(levels)@)
            &&& taker_preserved(*final(taker), *old(taker))
            &&& final(taker).filled_quantity.units() == old(taker).filled_quantity.units()
                + sum_trade_qty(trades@)
            &&& (final(taker).remaining_units() == 0 || final(levels)@.len() == 0
                || !price_eligible(*old(taker), final(levels)@[0].price.units()))
            &&& (forall|t: int|
                0 <= t < q ==> trade_taker_fields(
                    #[trigger] trades@[t],
                    *old(taker),
                    tid_start + t,
                    now_ms,
                ))
            &&& (forall|t: int|
                0 <= t < q ==> price_eligible(*old(taker), (#[trigger] trades@[t]).price.units()))
            &&& prices_monotone(trades@, side)
            &&& (forall|t: int|
                0 <= t < q ==> exists|i: int|
                    0 <= i < old(levels)@.len() && (#[trigger] trades@[t]).price == old(
                        levels,
                    )@[i].price)
            &&& (forall|t: int|
                0 <= t < q ==> maker_evidence(
                    #[trigger] trades@[t],
                    side,
                    old(index)@,
                    old(levels)@,
                ))
            &&& (forall|t1: int, t2: int|
                0 <= t1 < t2 < q && (#[trigger] trades@[t1]).price.units() == (
                #[trigger] trades@[t2]).price.units() ==> trades@[t1].quantity.units() == old(
                    index,
                )@[maker_oid(trades@[t1], side)].remaining_units())
            &&& queue_ordered(old(levels)@, trades@, side)
            &&& makers_frame(old(index)@, trades@, side, final(index)@)
            &&& survivors_rest(old(levels)@, trades@, side, final(levels)@)
            &&& (final(levels)@.len() > 0 ==> old(levels)@.len() > 0 && !better_price(
                opposite(side),
                final(levels)@[0].price.units(),
                old(levels)@[0].price.units(),
            ))
            &&& final(index)@.dom() == old(index)@.dom()
            &&& (forall|id: u64|
                old(index)@.contains_key(id) && !in_levels_id(old(levels)@, id)
                    ==> final(index)@[id] == old(index)@[id])
            &&& (forall|id: u64|
                old(index)@.contains_key(id) ==> same_core(
                    #[trigger] final(index)@[id],
                    old(index)@[id],
                ) && final(index)@[id].wf())
        }),
    decreases old(levels)@.len(),
{
    let ghost side = old(taker).side;
    let taker_done = taker.is_filled();
    if taker_done || levels.len() == 0 {
        let trades: Vec<Trade> = Vec::new();
        proof {
            assert(sum_trade_qty(trades@) == 0);
            lemma_total_orders_nonneg(old(levels)@);
            assert(survivors_rest(old(levels)@, trades@, side, levels@)) by {
                reveal(survivors_rest);
                assert forall|i: int, j: int|
                    #![trigger old(levels)@[i].orders@[j]]
                    0 <= i < old(levels)@.len() && 0 <= j
                        < old(levels)@[i].orders@.len() implies appears(
                    levels@,
                    old(levels)@[i].orders@[j],
                ) by {
                    assert(levels@[i].orders@[j] == old(levels)@[i].orders@[j]);
                }
            }
            assert(makers_frame(old(index)@, trades@, side, index@)) by {
                reveal(makers_frame);
            }
            assert(queue_ordered(old(levels)@, trades@, side)) by {
                reveal(queue_ordered);
            }
        }
        return trades;
    }
    let eligible = match taker.order_type {
        OrderType::Market => true,
        OrderType::Limit => {
            match taker.side {
                OrderSide::Bid => levels[0].price.le(&taker.price),
                OrderSide::Ask => taker.price.le(&levels[0].price),
            }
        },
    };
    if !eligible {
        let trades: Vec<Trade> = Vec::new();
        proof {
            assert(sum_trade_qty(trades@) == 0);
            lemma_total_orders_nonneg(old(levels)@);
            assert(survivors_rest(old(levels)@, trades@, side, levels@)) by {
                reveal(survivors_rest);
                assert forall|i: int, j: int|
                    #![trigger old(levels)@[i].orders@[j]]
                    0 <= i < old(levels)@.len() && 0 <= j
                        < old(levels)@[i].orders@.len() implies appears(
                    levels@,
                    old(levels)@[i].orders@[j],
                ) by {
                    assert(levels@[i].orders@[j] == old(levels)@[i].orders@[j]);
                }
            }
            assert(makers_frame(old(index)@, trades@, side, index@)) by {
                reveal(makers_frame);
            }
            assert(queue_ordered(old(levels)@, trades@, side)) by {
                reveal(queue_ordered);
            }
        }
        return trades;
    }
    proof {
        lemma_total_orders_head(levels@);
        lemma_total_orders_nonneg(levels@.drop_first());
        assert forall|j: int|
            0 <= j < levels@[0].orders@.len() implies index@.contains_key(
                (#[trigger] levels@[0].orders@[j]).id,
            ) && index@[levels@[0].orders@[j].id] == levels@[0].orders@[j] by {}
    }
    let mut lvl = levels.remove(0);
    proof {
        assert(levels@ =~= old(levels)@.drop_first());
    }
    let mut trades = fill_level(&mut lvl, taker, index, tid_start, now_ms, Ghost(sym));
    let ghost trades1 = trades@;
    let ghost lvl1 = lvl;
    let ghost index1 = index@;
    let ghost taker1 = *taker;
    let ghost q1 = trades@.len() as int;
    let ghost oldls = old(levels)@;
    proof {
        assert forall|t: int| 0 <= t < q1 implies (#[trigger] trades1[t]).price
            == oldls[0].price by {
            assert(trade_fields(trades1[t], *old(taker), oldls[0].orders@[t], oldls[0].price,
                tid_start + t, now_ms));
        }
        // each trade of the head level names its queued maker, which the
        // index mirrored before the call
        assert forall|t: int| 0 <= t < q1 implies maker_evidence(
            #[trigger] trades1[t],
            side,
            old(index)@,
            oldls,
        ) by {
            let mk = oldls[0].orders@[t];
            assert(trade_fields(trades1[t], *old(taker), mk, oldls[0].price, tid_start + t,
                now_ms));
            assert(maker_oid(trades1[t], side) == mk.id);
            assert(old(index)@[mk.id] == mk);
            assert(mk.price.units() == oldls[0].price.units());
            assert(in_levels_id(oldls, mk.id)) by {
                assert(oldls[0].orders@[t].id == mk.id);
            }
        }
        // within the level, every maker except the last consumed one is
        // fully consumed
        assert forall|t1: int| 0 <= t1 < q1 - 1 implies (
        #[trigger] trades1[t1]).quantity.units() == old(index)@[maker_oid(
            trades1[t1],
            side,
        )].remaining_units() by {
            let mk = oldls[0].orders@[t1];
            assert(trade_fields(trades1[t1], *old(taker), mk, oldls[0].price, tid_start + t1,
                now_ms));
            assert(maker_oid(trades1[t1], side) == mk.id);
            assert(old(index)@[mk.id] == mk);
            assert(trades1[t1].quantity.units() == mk.remaining_units());
        }
    }
    let still_going = !taker.is_filled();
    if !lvl.is_empty() {
        // partially consumed level goes back to the front
        levels.insert(0, lvl);
        proof {
            assert(!still_going);
            assert(levels@ =~= oldls.drop_first().insert(0, lvl1));
            lemma_covers_after_fill(oldls, old(index)@, index@, lvl1, q1, opposite(side), sym);
            lemma_entries_wf_after_fill(oldls, old(index)@, index@, lvl1, q1);
            assert(levels@[0] == lvl1);
            assert(lvl1.price == oldls[0].price);
            lemma_head_frames(oldls, levels@, old(index)@, index@, trades@, *old(taker),
                tid_start as int, now_ms, lvl1, true);
        }
        return trades;
    }
    if !still_going {
        proof {
            assert(levels@ == oldls.drop_first());
            lemma_covers_after_fill(oldls, old(index)@, index@, lvl1, q1, opposite(side), sym);
            lemma_entries_wf_after_fill(oldls, old(index)@, index@, lvl1, q1);
            if levels@.len() > 0 {
                assert(levels@[0] == oldls[1]);
                assert(better_price(opposite(side), oldls[0].price.units(),
                    oldls[1].price.units()));
            }
            lemma_head_frames(oldls, levels@, old(index)@, index@, trades@, *old(taker),
                tid_start as int, now_ms, lvl1, false);
        }
        return trades;
    }
    // the head level was exhausted; move to the next one
    proof {
        assert(lvl1.orders@.len() == 0);
        assert(levels@ == oldls.drop_first());
        assert(q1 == oldls[0].orders@.len()) by {
            if q1 < oldls[0].orders@.len() {
                assert(lvl1.orders@.contains(oldls[0].orders@[q1]));
            }
        }
        lemma_covers_after_fill(oldls, old(index)@, index@, lvl1, q1, opposite(side), sym);
        lemma_entries_wf_after_fill(oldls, old(index)@, index@, lvl1, q1);
        lemma_total_orders_head(oldls);
    }
    let ghost levels_mid = levels@;
    let more = match_against(levels, index, taker, tid_start + trades.len() as u64, now_ms, Ghost(sym));
    let ghost more0 = more@;
    let mut more_m = more;
    let ghost trades_before = trades@;
    trades.append(&mut more_m);
    proof {
        let q = trades@.len() as int;
        assert(trades@ =~= trades1 + more0);
        lemma_sum_trade_concat(trades1, more0);
        assert forall|t: int| q1 <= t < q implies price_eligible(
            *old(taker),
            (#[trigger] trades@[t]).price.units(),
        ) by {
            assert(trades@[t] == more0[t - q1]);
        }
        assert forall|t: int| 0 <= t < q implies exists|i: int|
            0 <= i < oldls.len() && (#[trigger] trades@[t]).price == oldls[i].price by {
            if t < q1 {
                assert(trades@[t].price == oldls[0].price);
            } else {
                assert(trades@[t] == more0[t - q1]);
                let i0 = choose|i0: int|
                    0 <= i0 < levels_mid.len() && more0[t - q1].price == #[trigger] levels_mid[i0].price;
                assert(oldls[i0 + 1] == levels_mid[i0]);
                assert(trades@[t].price == oldls[i0 + 1].price);
            }
        }
        lemma_monotone_glue(trades@, trades1, more0, oldls, levels_mid, side, sym);
        // maker evidence carries over from the deeper levels: their entries
        // were untouched by the head-level fill
        assert forall|t: int| q1 <= t < q implies maker_evidence(
            #[trigger] trades@[t],
            side,
            old(index)@,
            oldls,
        ) by {
            assert(trades@[t] == more0[t - q1]);
            assert(maker_evidence(more0[t - q1], side, index1, levels_mid));
            let mid = maker_oid(more0[t - q1], side);
            let (i0, j0) = choose|i0: int, j0: int|
                0 <= i0 < levels_mid.len() && 0 <= j0 < (#[trigger] levels_mid[i0]).orders@.len()
                    && (#[trigger] levels_mid[i0].orders@[j0]).id == mid;
            assert(levels_mid[i0] == oldls[i0 + 1]);
            assert(oldls[i0 + 1].orders@[j0].id == mid);
            assert(in_levels_id(oldls, mid));
            assert(!id_in(oldls[0].orders@.take(q1), mid)) by {
                if id_in(oldls[0].orders@.take(q1), mid) {
                    let t2 = choose|t2: int|
                        0 <= t2 < oldls[0].orders@.take(q1).len() && (
                        #[trigger] oldls[0].orders@.take(q1)[t2]).id == mid;
                    lemma_cross_level_ids(oldls, old(index)@, opposite(side), sym, 0, t2, i0 + 1,
                        j0);
                }
            }
            assert(index1[mid] == old(index)@[mid]);
        }
        // within one price, an earlier trade fully consumed its maker
        assert forall|t1: int, t2: int|
            0 <= t1 < t2 < q && (#[trigger] trades@[t1]).price.units() == (
            #[trigger] trades@[t2]).price.units() implies trades@[t1].quantity.units() == old(
            index,
        )@[maker_oid(trades@[t1], side)].remaining_units() by {
            if t2 < q1 {
                // both against the head level: shown before the recursion
            } else if t1 >= q1 {
                assert(trades@[t1] == more0[t1 - q1]);
                assert(trades@[t2] == more0[t2 - q1]);
                assert(maker_evidence(more0[t1 - q1], side, index1, levels_mid));
                let mid = maker_oid(more0[t1 - q1], side);
                let (i0, j0) = choose|i0: int, j0: int|
                    0 <= i0 < levels_mid.len() && 0 <= j0 < (
                    #[trigger] levels_mid[i0]).orders@.len() && (
                    #[trigger] levels_mid[i0].orders@[j0]).id == mid;
                assert(levels_mid[i0] == oldls[i0 + 1]);
                assert(!id_in(oldls[0].orders@.take(q1), mid)) by {
                    if id_in(oldls[0].orders@.take(q1), mid) {
                        let t3 = choose|t3: int|
                            0 <= t3 < oldls[0].orders@.take(q1).len() && (
                            #[trigger] oldls[0].orders@.take(q1)[t3]).id == mid;
                        lemma_cross_level_ids(oldls, old(index)@, opposite(side), sym, 0, t3,
                            i0 + 1, j0);
                    }
                }
                assert(index1[mid] == old(index)@[mid]);
            } else {
                // trades of different levels have different prices
                assert(trades@[t1].price == oldls[0].price);
                assert(trades@[t2] == more0[t2 - q1]);
                let i0 = choose|i0: int|
                    0 <= i0 < levels_mid.len() && more0[t2 - q1].price == #[trigger] levels_mid[i0].price;
                assert(oldls[i0 + 1] == levels_mid[i0]);
                assert(better_price(opposite(side), oldls[0].price.units(),
                    oldls[i0 + 1].price.units()));
                assert(false);
            }
        }
        // the best remaining level is never better than the old best
        if levels@.len() > 0 {
            assert(levels_mid.len() > 0);
            assert(levels_mid[0] == oldls[1]);
            assert(better_price(opposite(side), oldls[0].price.units(), oldls[1].price.units()));
            assert(!better_price(opposite(side), levels@[0].price.units(),
                levels_mid[0].price.units()));
        }
        lemma_rec_frames(oldls, levels_mid, levels@, old(index)@, index1, index@, trades1,
            more0, trades@, *old(taker), tid_start as int, now_ms, sym);
    }
    trades
}

/// Trades from the best level, then trades from strictly worse levels, keep
/// the price sweep monotone.
proof fn lemma_monotone_glue(
    all: Seq<Trade>,
    first: Seq<Trade>,
    rest: Seq<Trade>,
    oldls: Seq<PriceLevel>,
    mid: Seq<PriceLevel>,
    side: OrderSide,
    sym: int,
)
    requires
        all == first + rest,
        oldls.len() > 0,
        mid == oldls.drop_first(),
        levels_wf(oldls, opposite(side), sym),
        forall|t: int| 0 <= t < first.len() ==> (#[trigger] first[t]).price == oldls[0].price,
        prices_monotone(rest, side),
        forall|t: int|
            0 <= t < rest.len() ==> exists|i: int|
                0 <= i < mid.len() && (#[trigger] rest[t]).price == mid[i].price,
    ensures
        prices_monotone(all, side),
{
    let q1 = first.len() as int;
    let q = all.len() as int;
    assert forall|t1: int, t2: int| 0 <= t1 <= t2 < q implies (match side {
        OrderSide::Bid => (#[trigger] all[t1]).price.units() <= (#[trigger] all[t2]).price.units(),
        OrderSide::Ask => (#[trigger] all[t1]).price.units() >= (#[trigger] all[t2]).price.units(),
    }) by {
        if t1 < q1 && t2 >= q1 {
            assert(all[t1].price == oldls[0].price);
            assert(all[t2] == rest[t2 - q1]);
            let i0 = choose|i0: int|
                0 <= i0 < mid.len() && rest[t2 - q1].price == #[trigger] mid[i0].price;
            assert(oldls[i0 + 1] == mid[i0]);
            assert(better_price(opposite(side), oldls[0].price.units(), oldls[i0 + 1].price.units()));
        } else if t1 >= q1 {
            assert(all[t1] == rest[t1 - q1]);
            assert(all[t2] == rest[t2 - q1]);
        } else {
            assert(all[t1].price == oldls[0].price);
            assert(all[t2].price == oldls[0].price);
        }
    }
}

/// Splitting a trade list splits its quantity sum.
pub proof fn lemma_sum_trade_concat(a: Seq<Trade>, b: Seq<Trade>)
    ensures
        sum_trade_qty(a + b) == sum_trade_qty(a) + sum_trade_qty(b),
    decreases b.len(),
{
    if b.len() == 0 {
        assert(a + b =~= a);
    } else {
        lemma_sum_trade_concat(a, b.drop_last());
        assert((a + b).drop_last() =~= a + b.drop_last());
        assert((a + b).last() == b.last());
    }
}

/// Queue a residual limit order at the tail of its price level, creating
/// the level (keeping the side sorted) if none exists at that price.
#[verifier::rlimit(100)]
#[verifier::spinoff_prover]
fn rest_order(
    levels: &mut Vec<PriceLevel>,
    order: Order,
    Ghost(sym): Ghost<int>,
) -> (ok: bool)
    requires
        levels_wf(old(levels)@, order.side, sym),
        order.wf(),
        order.symbol_id == sym,
        order.remaining_units() > 0,
        order.is_open(),
        !in_levels_id(old(levels)@, order.id),
    ensures
        ok ==> {
            &&& levels_wf(final(levels)@, order.side, sym)
            &&& (exists|i: int|
                0 <= i < final(levels)@.len() && (#[trigger] final(levels)@[i]).price.units()
                    == order.price.units() && final(levels)@[i].orders@.len() > 0
                    && final(levels)@[i].orders@.last() == order)
            &&& (forall|i: int, j: int|
                0 <= i < final(levels)@.len() && 0 <= j
                    < (#[trigger] final(levels)@[i]).orders@.len()
                    ==> ((#[trigger] final(levels)@[i].orders@[j]) == order
                    || appears(old(levels)@, final(levels)@[i].orders@[j])))
            &&& (forall|i: int, j: int|
                0 <= i < old(levels)@.len() && 0 <= j < (#[trigger] old(levels)@[i]).orders@.len()
                    ==> appears(final(levels)@, #[trigger] old(levels)@[i].orders@[j]))
            &&& final(levels)@.len() > 0
            &&& (final(levels)@[0].price.units() == order.price.units() || (old(levels)@.len() > 0
                && final(levels)@[0] == old(levels)@[0]))
        },
        !ok ==> final(levels)@ == old(levels)@ && (exists|i: int|
            0 <= i < old(levels)@.len() && (#[trigger] old(levels)@[i]).price.units()
                == order.price.units() && sum_remaining(old(levels)@[i].orders@)
                + order.remaining_units() >= UNITS_BOUND as int),
{
    let n = levels.len();
    let mut i: usize = 0;
    let mut scanning = true;
    while scanning
        invariant
            i <= n == levels@.len(),
            *levels == *old(levels),
            levels_wf(levels@, order.side, sym),
            order.wf(),
            forall|k: int|
                0 <= k < i ==> better_price(
                    order.side,
                    (#[trigger] levels@[k]).price.units(),
                    order.price.units(),
                ),
            !scanning ==> (i == n || !better_price(
                order.side,
                levels@[i as int].price.units(),
                order.price.units(),
            )),
        decreases n - i, (if scanning { 1int } else { 0int }),
    {
        if i >= n {
            scanning = false;
        } else {
            let cmp = match order.side {
                OrderSide::Bid => order.price.lt(&levels[i].price),
                OrderSide::Ask => levels[i].price.lt(&order.price),
            };
            if cmp {
                i = i + 1;
            } else {
                scanning = false;
            }
        }
    }
    let at_same_price = if i < n {
        levels[i].price.eq_value(&order.price)
    } else {
        false
    };
    if at_same_price {
        let mut lvl = levels.remove(i);
        proof {
            assert(forall|j: int| 0 <= j < lvl.orders@.len() ==> (#[trigger] lvl.orders@[j]).id
                != order.id) by {
                assert forall|j: int| 0 <= j < lvl.orders@.len() implies (
                #[trigger] lvl.orders@[j]).id != order.id by {
                    if lvl.orders@[j].id == order.id {
                        assert(old(levels)@[i as int].orders@[j].id == order.id);
                        assert(in_levels_id(old(levels)@, order.id));
                    }
                }
            }
        }
        let ok = lvl.add_order(order);
        if !ok {
            levels.insert(i, lvl);
            proof {
                assert(levels@ =~= old(levels)@);
                let lv = old(levels)@[i as int];
                assert(sum_remaining(lv.orders@.push(order)) == sum_remaining(lv.orders@)
                    + order.remaining_units()) by {
                    assert(lv.orders@.push(order).drop_last() =~= lv.orders@);
                    assert(lv.orders@.push(order).last() == order);
                }
                assert(old(levels)@[i as int].price.units() == order.price.units());
            }
            return false;
        }
        levels.insert(i, lvl);
        proof {
            let ls = levels@;
            let oldls = old(levels)@;
            assert(ls.len() == oldls.len());
            assert(forall|k: int| 0 <= k < ls.len() && k != i ==> ls[k] == oldls[k]);
            assert(ls[i as int].orders@ == oldls[i as int].orders@.push(order));
            assert(ls[i as int].price == oldls[i as int].price);
            assert forall|k: int|
                0 <= k < ls.len() implies (#[trigger] ls[k]).wf() && ls[k].uniform(
                order.side,
                sym,
            ) && ls[k].distinct_ids() && ls[k].orders@.len() > 0 by {
                if k == i {
                    assert(oldls[k].uniform(order.side, sym));
                    assert forall|j: int| 0 <= j < ls[k].orders@.len() implies {
                        &&& (#[trigger] ls[k].orders@[j]).side == order.side
                        &&& ls[k].orders@[j].symbol_id == sym
                    } by {
                        if j < ls[k].orders@.len() - 1 {
                            assert(ls[k].orders@[j] == oldls[k].orders@[j]);
                        }
                    }
                }
            }
            assert(ls[i as int].orders@.last() == order);
            assert(ls[i as int].price.units() == order.price.units());
            assert forall|i2: int, j: int|
                0 <= i2 < ls.len() && 0 <= j < (#[trigger] ls[i2]).orders@.len() implies ((
            #[trigger] ls[i2].orders@[j]) == order || appears(oldls, ls[i2].orders@[j])) by {
                if i2 == i {
                    if j < ls[i2].orders@.len() - 1 {
                        assert(oldls[i2].orders@[j] == ls[i2].orders@[j]);
                        assert(appears(oldls, ls[i2].orders@[j]));
                    }
                } else {
                    assert(ls[i2].orders@[j] == oldls[i2].orders@[j]);
                    assert(appears(oldls, ls[i2].orders@[j]));
                }
            }
            assert forall|i2: int, j: int|
                0 <= i2 < oldls.len() && 0 <= j < (#[trigger] oldls[i2]).orders@.len() implies
                appears(ls, #[trigger] oldls[i2].orders@[j]) by {
                if i2 == i {
                    assert(ls[i2].orders@[j] == oldls[i2].orders@[j]);
                } else {
                    assert(ls[i2].orders@[j] == oldls[i2].orders@[j]);
                }
            }
        }
        return true;
    }
    // a new level strictly between i-1 and i
    let mut lvl = PriceLevel::new(order.price);
    proof {
        assert(lvl.orders@ =~= Seq::<Order>::empty());
    }
    let ok = lvl.add_order(order);
    proof {
        assert(sum_remaining(Seq::<Order>::empty().push(order)) == order.remaining_units()) by {
            assert(Seq::<Order>::empty().push(order).drop_last() =~= Seq::<Order>::empty());
            assert(Seq::<Order>::empty().push(order).last() == order);
            assert(sum_remaining(Seq::<Order>::empty()) == 0);
        }
        order.filled_quantity.lemma_units_bounds_mantissa_pub();
    }
    if !ok {
        proof {
            assert(false);
        }
        return false;
    }
    levels.insert(i, lvl);
    proof {
        let ls = levels@;
        let oldls = old(levels)@;
        assert(ls[i as int] == lvl);
        assert(lvl.orders@ =~= Seq::<Order>::empty().push(order));
        assert(lvl.orders@.last() == order);
        assert(forall|k: int| 0 <= k < i ==> ls[k] == oldls[k]);
        assert(forall|k: int| i < k < ls.len() ==> ls[k] == oldls[k - 1]);
        assert forall|k1: int, k2: int| 0 <= k1 < k2 < ls.len() implies better_price(
            order.side,
            (#[trigger] ls[k1]).price.units(),
            (#[trigger] ls[k2]).price.units(),
        ) by {
            if k2 == i {
                assert(ls[k1] == oldls[k1]);
            } else if k1 == i {
                assert(ls[k2] == oldls[k2 - 1]);
                assert(!better_price(order.side, oldls[k2 - 1].price.units(), order.price.units()));
                assert(oldls[k2 - 1].price.units() != order.price.units());
            } else if k1 < i && k2 > i {
                assert(ls[k1] == oldls[k1]);
                assert(ls[k2] == oldls[k2 - 1]);
            }
        }
        assert forall|i2: int, j: int|
            0 <= i2 < ls.len() && 0 <= j < (#[trigger] ls[i2]).orders@.len() implies ((
        #[trigger] ls[i2].orders@[j]) == order || appears(oldls, ls[i2].orders@[j])) by {
            if i2 < i {
                assert(ls[i2].orders@[j] == oldls[i2].orders@[j]);
                assert(appears(oldls, ls[i2].orders@[j]));
            } else if i2 > i {
                assert(ls[i2].orders@[j] == oldls[i2 - 1].orders@[j]);
                assert(appears(oldls, ls[i2].orders@[j]));
            }
        }
        assert forall|i2: int, j: int|
            0 <= i2 < oldls.len() && 0 <= j < (#[trigger] oldls[i2]).orders@.len() implies appears(
            ls,
            #[trigger] oldls[i2].orders@[j],
        ) by {
            if i2 < i {
                assert(ls[i2].orders@[j] == oldls[i2].orders@[j]);
            } else {
                assert(ls[i2 + 1].orders@[j] == oldls[i2].orders@[j]);
            }
        }
    }
    true
}

/// `ls1` is `ls0` with exactly the order of the given id taken out: every
/// remaining order rested before, none carries the id, and every other old
/// resting order is still there.
pub open spec fn removed_only(ls0: Seq<PriceLevel>, ls1: Seq<PriceLevel>, order_id: u64) -> bool {
    &&& (forall|i: int, j: int|
        0 <= i < ls1.len() && 0 <= j < (#[trigger] ls1[i]).orders@.len() ==> appears(
            ls0,
            #[trigger] ls1[i].orders@[j],
        ) && ls1[i].orders@[j].id != order_id)
    &&& (forall|i: int, j: int|
        0 <= i < ls0.len() && 0 <= j < (#[trigger] ls0[i]).orders@.len() && ls0[i].orders@[j].id
            != order_id ==> appears(ls1, #[trigger] ls0[i].orders@[j]))
}

/// An index whose untouched entries survived a fill of one side still
/// mirrors the other side.
proof fn lemma_other_side_covers(
    m0: Map<u64, Order>,
    m1: Map<u64, Order>,
    own: Seq<PriceLevel>,
    opp: Seq<PriceLevel>,
    own_side: OrderSide,
    sym: int,
)
    requires
        covers(m0, own),
        covers(m0, opp),
        forall|i: int|
            0 <= i < own.len() ==> (#[trigger] own[i]).uniform(own_side, sym),
        forall|i: int|
            0 <= i < opp.len() ==> (#[trigger] opp[i]).uniform(opposite(own_side), sym),
        m1.dom() == m0.dom(),
        forall|id: u64| m0.contains_key(id) && !in_levels_id(opp, id) ==> m1[id] == m0[id],
    ensures
        covers(m1, own),
{
    assert forall|i: int, j: int|
        0 <= i < own.len() && 0 <= j < (#[trigger] own[i]).orders@.len() implies ({
        &&& m1.contains_key((#[trigger] own[i].orders@[j]).id)
        &&& m1[own[i].orders@[j].id] == own[i].orders@[j]
    }) by {
        let id = own[i].orders@[j].id;
        assert(m0[id] == own[i].orders@[j]);
        assert(!in_levels_id(opp, id)) by {
            if in_levels_id(opp, id) {
                let (i2, j2) = choose|i2: int, j2: int|
                    0 <= i2 < opp.len() && 0 <= j2 < (#[trigger] opp[i2]).orders@.len() && (
                    #[trigger] opp[i2].orders@[j2]).id == id;
                assert(m0[id] == opp[i2].orders@[j2]);
                assert(own[i].orders@[j].side == own_side);
                assert(opp[i2].orders@[j2].side == opposite(own_side));
                assert(false);
            }
        }
    }
}

/// An id resting on one side of a well-formed book never rests on the other.
proof fn lemma_cross_side(
    m: Map<u64, Order>,
    a: Seq<PriceLevel>,
    b: Seq<PriceLevel>,
    a_side: OrderSide,
    sym: int,
    id: u64,
)
    requires
        covers(m, a),
        covers(m, b),
        forall|i: int| 0 <= i < a.len() ==> (#[trigger] a[i]).uniform(a_side, sym),
        forall|i: int| 0 <= i < b.len() ==> (#[trigger] b[i]).uniform(opposite(a_side), sym),
        in_levels_id(a, id),
    ensures
        !in_levels_id(b, id),
{
    if in_levels_id(b, id) {
        let (i1, j1) = choose|i1: int, j1: int|
            0 <= i1 < a.len() && 0 <= j1 < (#[trigger] a[i1]).orders@.len() && (
            #[trigger] a[i1].orders@[j1]).id == id;
        let (i2, j2) = choose|i2: int, j2: int|
            0 <= i2 < b.len() && 0 <= j2 < (#[trigger] b[i2]).orders@.len() && (
            #[trigger] b[i2].orders@[j2]).id == id;
        assert(m[id] == a[i1].orders@[j1]);
        assert(m[id] == b[i2].orders@[j2]);
        assert(false);
    }
}

/// Up to `limit` trades of one symbol read from the newest end of the
/// history, newest first.
pub open spec fn spec_recent(ts: Seq<Trade>, sym: i32, limit: nat) -> Seq<Trade>
    decreases ts.len(),
{
    if ts.len() == 0 || limit == 0 {
        Seq::empty()
    } else if ts.last().symbol_id == sym {
        seq![ts.last()] + spec_recent(ts.drop_last(), sym, (limit - 1) as nat)
    } else {
        spec_recent(ts.drop_last(), sym, limit)
    }
}

/// Sum over the trades of `(p - trade.price) * trade.quantity`, in
/// canonical units scaled by `10^MAX_SCALE`: the quote collateral a bid
/// taker at limit `p` froze beyond what its fills actually cost.
pub open spec fn gap_sum(p: int, ts: Seq<Trade>) -> int
    decreases ts.len(),
{
    if ts.len() == 0 {
        0
    } else {
        gap_sum(p, ts.drop_last()) + (p - ts.last().price.units()) * ts.last().quantity.units()
    }
}

/// The residual quote collateral of a fully filled bid taker: its limit
/// price minus each trade's price, times the traded quantity, summed.
/// `None` only when a step of the exact computation leaves the
/// representable range.
pub fn bid_fill_residual(price: Decimal, trades: &Vec<Trade>) -> (r: Option<Decimal>)
    requires
        price.wf(),
        forall|t: int|
            0 <= t < trades@.len() ==> (#[trigger] trades@[t]).wf()
                && trades@[t].price.units() <= price.units(),
    ensures
        match r {
            Some(d) => d.wf() && d.units() * crate::decimal::ten_pow(
                crate::decimal::MAX_SCALE as nat,
            ) == gap_sum(price.units(), trades@),
            None => true,
        },
{
    let n = trades.len();
    let mut acc = Decimal::zero();
    let mut i: usize = 0;
    proof {
        assert(trades@.take(0) =~= Seq::<Trade>::empty());
        vstd::arithmetic::mul::lemma_mul_by_zero_is_zero(
            crate::decimal::ten_pow(crate::decimal::MAX_SCALE as nat) as int,
        );
    }
    while i < n
        invariant
            i <= n == trades@.len(),
            price.wf(),
            forall|t: int|
                0 <= t < trades@.len() ==> (#[trigger] trades@[t]).wf()
                    && trades@[t].price.units() <= price.units(),
            acc.wf(),
            acc.units() * crate::decimal::ten_pow(crate::decimal::MAX_SCALE as nat)
                == gap_sum(price.units(), trades@.take(i as int)),
        decreases n - i,
    {
        proof {
            assert(trades@.take(i as int + 1).drop_last() =~= trades@.take(i as int));
            assert(trades@.take(i as int + 1).last() == trades@[i as int]);
        }
        let tr = trades[i];
        let diff = match price.checked_sub(&tr.price) {
            Some(d) => d,
            None => {
                proof {
                    assert(false);
                }
                return None;
            },
        };
        let prod = match diff.checked_mul(&tr.quantity) {
            Some(p) => p,
            None => {
                return None;
            },
        };
        let acc2 = match acc.checked_add(&prod) {
            Some(a) => a,
            None => {
                return None;
            },
        };
        proof {
            vstd::arithmetic::mul::lemma_mul_is_distributive_add_other_way(
                crate::decimal::ten_pow(crate::decimal::MAX_SCALE as nat) as int,
                acc.units(),
                prod.units(),
            );
        }
        acc = acc2;
        i = i + 1;
    }
    proof {
        assert(trades@.take(n as int) =~= trades@);
    }
    Some(acc)
}

/// A book no order has touched yet.
pub open spec fn empty_book(b: OrderBook, symbol_id: i32) -> bool {
    &&& b.symbol_id == symbol_id
    &&& b.bids@.len() == 0
    &&& b.asks@.len() == 0
    &&& b.orders@ == Map::<u64, Order>::empty()
    &&& b.next_trade_id == 1
}

/// The order a successful `MatchingEngine::place_order` hands to the book:
/// parsed price and quantity (a market order carries the zero sentinel
/// price), nothing filled, status pending.
pub open spec fn spec_new_order(
    id: u64,
    request_id: u128,
    symbol_id: i32,
    account_id: i32,
    order_type: i32,
    side: i32,
    price: Seq<char>,
    quantity: Seq<char>,
    now_ms: u64,
) -> Order {
    let ot = if order_type == 1 {
        OrderType::Market
    } else {
        OrderType::Limit
    };
    let os = if side == 1 {
        OrderSide::Ask
    } else {
        OrderSide::Bid
    };
    let q = crate::decimal::parse_chars(quantity)->Some_0;
    let p = if ot == OrderType::Market {
        (false, 0nat, 0nat)
    } else {
        crate::decimal::parse_chars(price)->Some_0
    };
    Order {
        id,
        request_id,
        symbol_id,
        account_id,
        order_type: ot,
        side: os,
        price: Decimal { mantissa: p.1 as u128, scale: p.2 as u32 },
        quantity: Decimal { mantissa: q.1 as u128, scale: q.2 as u32 },
        filled_quantity: Decimal { mantissa: 0, scale: 0 },
        status: OrderStatus::Pending,
        created_at: now_ms,
    }
}

/// The resting order with the given id on one side, if any.
fn find_resting(levels: &Vec<PriceLevel>, order_id: u64) -> (r: Option<Order>)
    ensures
        match r {
            Some(o) => appears(levels@, o) && o.id == order_id && in_levels_id(levels@, order_id),
            None => !in_levels_id(levels@, order_id),
        },
{
    let n = levels.len();
    let mut i: usize = 0;
    while i < n
        invariant
            i <= n == levels@.len(),
            forall|k: int| 0 <= k < i ==> !in_seq_id((#[trigger] levels@[k]).orders@, order_id),
        decreases n - i,
    {
        let m = levels[i].orders.len();
        let mut j: usize = 0;
        while j < m
            invariant
                i < levels@.len(),
                j <= m == levels@[i as int].orders@.len(),
                forall|k: int|
                    0 <= k < j ==> (#[trigger] levels@[i as int].orders@[k]).id != order_id,
            decreases m - j,
        {
            if levels[i].orders[j].id == order_id {
                proof {
                    assert(appears(levels@, levels@[i as int].orders@[j as int]));
                    assert(in_levels_id(levels@, order_id));
                }
                return Some(levels[i].orders[j]);
            }
            j = j + 1;
        }
        proof {
            assert(!in_seq_id(levels@[i as int].orders@, order_id)) by {
                if in_seq_id(levels@[i as int].orders@, order_id) {
                    let k = choose|k: int|
                        0 <= k < levels@[i as int].orders@.len() && (
                        #[trigger] levels@[i as int].orders@[k]).id == order_id;
                }
            }
        }
        i = i + 1;
    }
    proof {
        if in_levels_id(levels@, order_id) {
            let (i2, j2) = choose|i2: int, j2: int|
                0 <= i2 < levels@.len() && 0 <= j2 < (#[trigger] levels@[i2]).orders@.len() && (
                #[trigger] levels@[i2].orders@[j2]).id == order_id;
            assert(in_seq_id(levels@[i2].orders@, order_id));
        }
    }
    None
}

/// The outcome of a cancel request: the removed order, or why nothing was
/// removed.
#[derive(Debug)]
pub enum CancelOutcome {
    Cancelled(Order),
    NotFound,
    Forbidden,
}

impl OrderBook {
    /// The account that owns the resting order with this id, if one rests.
    pub fn resting_owner(&self, order_id: u64) -> (r: Option<i32>)
        requires
            self.wf(),
        ensures
            match r {
                Some(aid) => {
                    &&& in_levels_id(self.bids@, order_id) || in_levels_id(self.asks@, order_id)
                    &&& self.orders@.contains_key(order_id)
                    &&& self.orders@[order_id].account_id == aid
                },
                None => !in_levels_id(self.bids@, order_id) && !in_levels_id(
                    self.asks@,
                    order_id,
                ),
            },
    {
        match find_resting(&self.bids, order_id) {
            Some(o) => {
                proof {
                    let (i, j) = choose|i: int, j: int|
                        0 <= i < self.bids@.len() && 0 <= j < (
                        #[trigger] self.bids@[i]).orders@.len() && (
                        #[trigger] self.bids@[i].orders@[j]) == o;
                    assert(self.orders@[o.id] == o);
                }
                Some(o.account_id)
            },
            None => {
                match find_resting(&self.asks, order_id) {
                    Some(o) => {
                        proof {
                            let (i, j) = choose|i: int, j: int|
                                0 <= i < self.asks@.len() && 0 <= j < (
                                #[trigger] self.asks@[i]).orders@.len() && (
                                #[trigger] self.asks@[i].orders@[j]) == o;
                            assert(self.orders@[o.id] == o);
                        }
                        Some(o.account_id)
                    },
                    None => None,
                }
            },
        }
    }
}

/// Everything a successful `OrderBook::add_order` guarantees, as a relation
/// between the book before (`b0`) and after (`b1`), the placed order and the
/// trades it emitted; stated once so the engine can pass it to its callers.
pub open spec fn add_order_post(
    b0: OrderBook,
    b1: OrderBook,
    order: Order,
    now_ms: u64,
    trades: Seq<Trade>,
) -> bool {
    let q = trades.len() as int;
    let fsum = sum_trade_qty(trades);
    let indexed = order.order_type == OrderType::Limit || fsum == order.quantity.units();
            &&& b1.wf()
            &&& b1.symbol_id == b0.symbol_id
            &&& b1.next_trade_id == b0.next_trade_id + q
            &&& 0 <= fsum <= order.quantity.units()
            &&& (forall|t: int|
                0 <= t < q ==> trade_taker_fields(
                    #[trigger] trades[t],
                    order,
                    b0.next_trade_id + t,
                    now_ms,
                ))
            &&& (forall|t: int|
                0 <= t < q ==> price_eligible(order, (#[trigger] trades[t]).price.units()))
            &&& prices_monotone(trades, order.side)
            &&& (forall|t: int|
                0 <= t < q ==> exists|i: int|
                    0 <= i < b0.side_levels(opposite(order.side)).len() && (
                    #[trigger] trades[t]).price == b0.side_levels(
                        opposite(order.side),
                    )[i].price)
            &&& (forall|t: int|
                0 <= t < q ==> maker_evidence(
                    #[trigger] trades[t],
                    order.side,
                    b0.orders@,
                    b0.side_levels(opposite(order.side)),
                ))
            &&& (forall|t1: int, t2: int|
                0 <= t1 < t2 < q && (#[trigger] trades[t1]).price.units() == (
                #[trigger] trades[t2]).price.units() ==> trades[t1].quantity.units()
                    == b0.orders@[maker_oid(trades[t1], order.side)].remaining_units())
            &&& queue_ordered(b0.side_levels(opposite(order.side)), trades, order.side)
            &&& survivors_rest(
                b0.side_levels(opposite(order.side)),
                trades,
                order.side,
                b1.side_levels(opposite(order.side)),
            )
            &&& makers_frame(b0.orders@, trades, order.side, b1.orders@)
            &&& (fsum == order.quantity.units() || b1.side_levels(
                opposite(order.side),
            ).len() == 0 || !price_eligible(
                order,
                b1.side_levels(opposite(order.side))[0].price.units(),
            ))
            &&& (forall|id: u64|
                id != order.id ==> (b1.orders@.contains_key(id)
                    <==> b0.orders@.contains_key(id)))
            &&& (forall|id: u64|
                b0.orders@.contains_key(id) && id != order.id ==> same_core(
                    #[trigger] b1.orders@[id],
                    b0.orders@[id],
                ))
            &&& (indexed ==> b1.orders@.contains_key(order.id) && same_core(
                b1.orders@[order.id],
                order,
            ) && b1.orders@[order.id].filled_quantity.units() == fsum
                && b1.orders@[order.id].status == (if fsum == order.quantity.units() {
                OrderStatus::Filled
            } else if fsum > 0 {
                OrderStatus::Partial
            } else {
                OrderStatus::Pending
            }))
            &&& (!indexed ==> !b1.orders@.contains_key(order.id))
            &&& (order.order_type == OrderType::Limit && fsum < order.quantity.units() ==> ((
            exists|i: int|
                0 <= i < b1.side_levels(order.side).len()
                    && (#[trigger] b1.side_levels(order.side)[i]).price.units()
                    == order.price.units()
                    && b1.side_levels(order.side)[i].orders@.len() > 0
                    && b1.side_levels(order.side)[i].orders@.last().id == order.id
                    && same_core(b1.side_levels(order.side)[i].orders@.last(), order))
                || (exists|i: int|
                0 <= i < b0.side_levels(order.side).len()
                    && (#[trigger] b0.side_levels(order.side)[i]).price.units()
                    == order.price.units()
                    && sum_remaining(b0.side_levels(order.side)[i].orders@)
                    + (order.quantity.units() - fsum) >= UNITS_BOUND as int)))
}


/// Inserting a fresh id into the index leaves it covering every level it
/// covered before.
proof fn lemma_covers_insert_fresh(m0: Map<u64, Order>, ls: Seq<PriceLevel>, oid: u64, o: Order)
    requires
        covers(m0, ls),
        !m0.contains_key(oid),
    ensures
        covers(m0.insert(oid, o), ls),
{
    let m1 = m0.insert(oid, o);
    assert forall|i: int, j: int|
        0 <= i < ls.len() && 0 <= j < (#[trigger] ls[i]).orders@.len() implies ({
        &&& m1.contains_key((#[trigger] ls[i].orders@[j]).id)
        &&& m1[ls[i].orders@[j].id] == ls[i].orders@[j]
    }) by {
        assert(m0.contains_key(ls[i].orders@[j].id));
        assert(ls[i].orders@[j].id != oid);
    }
}

/// Inserting a fresh id into the index
impl OrderBook {
    /// Place an order: match it against the opposite side in price-time
    /// priority, emit the trades, rest any limit residual at the tail of its
    /// price level, and record the final order state in the index.  A market
    /// taker never rests: its unfilled residual is discarded, and such an
    /// order is recorded in the index only when it filled completely (see
    /// the module note on this resolution).
    #[verifier::rlimit(100)]
    #[verifier::spinoff_prover]
    pub fn add_order(&mut self, order: Order, now_ms: u64) -> (trades: Vec<Trade>)
        requires
            old(self).wf(),
            order.wf(),
            order.symbol_id == old(self).symbol_id,
            order.status == OrderStatus::Pending,
            order.filled_quantity.units() == 0,
            order.remaining_units() > 0,
            !old(self).orders@.contains_key(order.id),
            old(self).next_trade_id + total_orders(
                old(self).side_levels(opposite(order.side)),
            ) <= u64::MAX,
        ensures
            add_order_post(*old(self), *final(self), order, now_ms, trades@),
    {
        let ghost sym = self.symbol_id as int;
        let mut taker = order;
        let ghost old_index = self.orders@;
        let trades = match order.side {
            OrderSide::Bid => match_against(
                &mut self.asks,
                &mut self.orders,
                &mut taker,
                self.next_trade_id,
                now_ms,
                Ghost(sym),
            ),
            OrderSide::Ask => match_against(
                &mut self.bids,
                &mut self.orders,
                &mut taker,
                self.next_trade_id,
                now_ms,
                Ghost(sym),
            ),
        };
        proof {
            match order.side {
                OrderSide::Bid => lemma_other_side_covers(
                    old_index,
                    self.orders@,
                    self.bids@,
                    old(self).asks@,
                    OrderSide::Bid,
                    sym,
                ),
                OrderSide::Ask => lemma_other_side_covers(
                    old_index,
                    self.orders@,
                    self.asks@,
                    old(self).bids@,
                    OrderSide::Ask,
                    sym,
                ),
            }
        }
        self.next_trade_id = self.next_trade_id + trades.len() as u64;
        let done = taker.is_filled();
        let untouched = taker.filled_quantity.is_zero();
        if done {
            taker.status = OrderStatus::Filled;
        } else if !untouched {
            taker.status = OrderStatus::Partial;
        }
        let ghost index_mid = self.orders@;
        let is_limit = match taker.order_type {
            OrderType::Limit => true,
            OrderType::Market => false,
        };
        if is_limit || done {
            self.orders.insert(taker.id, taker);
            proof {
                lemma_covers_insert_fresh(index_mid, self.bids@, order.id, taker);
                lemma_covers_insert_fresh(index_mid, self.asks@, order.id, taker);
            }
        }
        proof {
            // entries of orders no trade consumed survive the taker's own
            // index insertion: the taker's id is fresh
            assert(makers_frame(old_index, trades@, order.side, self.orders@)) by {
                reveal(makers_frame);
                assert forall|id: u64|
                    old_index.contains_key(id) && (forall|t: int|
                        0 <= t < trades@.len() ==> id != maker_oid(#[trigger] trades@[t],
                        order.side)) implies #[trigger] self.orders@[id] == old_index[id] by {
                    assert(index_mid[id] == old_index[id]);
                    assert(id != order.id);
                }
            }
        }
        if is_limit && !done {
            let ghost own_before = self.side_levels(order.side);
            proof {
                assert(!in_levels_id(own_before, order.id)) by {
                    if in_levels_id(own_before, order.id) {
                        let (i, j) = choose|i: int, j: int|
                            0 <= i < own_before.len() && 0 <= j < (
                            #[trigger] own_before[i]).orders@.len() && (
                            #[trigger] own_before[i].orders@[j]).id == order.id;
                        assert(old(self).side_levels(order.side)[i].orders@[j].id == order.id);
                        assert(old_index.contains_key(order.id));
                        assert(false);
                    }
                }
            }
            let rested = match order.side {
                OrderSide::Bid => rest_order(&mut self.bids, taker, Ghost(sym)),
                OrderSide::Ask => rest_order(&mut self.asks, taker, Ghost(sym)),
            };
            proof {
                if rested {
                    let own = self.side_levels(order.side);
                    assert forall|i: int, j: int|
                        0 <= i < own.len() && 0 <= j < (#[trigger] own[i]).orders@.len() implies ({
                        &&& self.orders@.contains_key((#[trigger] own[i].orders@[j]).id)
                        &&& self.orders@[own[i].orders@[j].id] == own[i].orders@[j]
                    }) by {
                        if own[i].orders@[j] == taker {
                        } else {
                            assert(appears(own_before, own[i].orders@[j]));
                            let (i2, j2) = choose|i2: int, j2: int|
                                0 <= i2 < own_before.len() && 0 <= j2 < (
                                #[trigger] own_before[i2]).orders@.len() && (
                                #[trigger] own_before[i2].orders@[j2]) == own[i].orders@[j];
                            assert(index_mid.contains_key(own_before[i2].orders@[j2].id));
                            assert(own_before[i2].orders@[j2].id != order.id);
                        }
                    }
                    let last_i = choose|i: int|
                        0 <= i < own.len() && (#[trigger] own[i]).price.units()
                            == taker.price.units() && own[i].orders@.len() > 0
                            && own[i].orders@.last() == taker;
                    assert(own[last_i].orders@.last().id == order.id);
                }
            }
        }
        trades
    }
}

/// Whether the level queues an order with the given id.
fn level_has(l: &PriceLevel, id: u64) -> (r: bool)
    ensures
        r == (find_order_index(l.orders@, id) >= 0),
        r == in_seq_id(l.orders@, id),
{
    proof {
        lemma_find_order_index_spec(l.orders@, id);
    }
    let n = l.orders.len();
    let mut i: usize = 0;
    while i < n
        invariant
            i <= n == l.orders@.len(),
            forall|j: int| 0 <= j < i ==> (#[trigger] l.orders@[j]).id != id,
        decreases n - i,
    {
        if l.orders[i].id == id {
            proof {
                lemma_find_order_index_spec(l.orders@, id);
                assert(in_seq_id(l.orders@, id));
                if find_order_index(l.orders@, id) == -1 {
                    assert(false);
                }
            }
            return true;
        }
        i = i + 1;
    }
    proof {
        if find_order_index(l.orders@, id) >= 0 {
            assert(l.orders@[find_order_index(l.orders@, id)].id == id);
        }
        if in_seq_id(l.orders@, id) {
            let j = choose|j: int| 0 <= j < l.orders@.len() && (#[trigger] l.orders@[j]).id == id;
            assert(false);
        }
    }
    false
}

/// Whether some order in the sequence has the given id.
pub open spec fn in_seq_id(s: Seq<Order>, id: u64) -> bool {
    exists|j: int| 0 <= j < s.len() && (#[trigger] s[j]).id == id
}

/// Remove the order with the given id from one side.  `None` when the side
/// does not hold it.
#[verifier::rlimit(100)]
#[verifier::spinoff_prover]
fn remove_from_side(
    levels: &mut Vec<PriceLevel>,
    index: &Ghost<Map<u64, Order>>,
    order_id: u64,
    Ghost(side): Ghost<OrderSide>,
    Ghost(sym): Ghost<int>,
) -> (r: Option<Order>)
    requires
        levels_wf(old(levels)@, side, sym),
        covers(index@, old(levels)@),
    ensures
        match r {
            Some(o) => {
                &&& in_levels_id(old(levels)@, order_id)
                &&& o.id == order_id
                &&& index@.contains_key(order_id)
                &&& o == index@[order_id]
                &&& o.is_open()
                &&& o.remaining_units() > 0
                &&& o.wf()
                &&& o.side == side
                &&& o.symbol_id == sym
                &&& levels_wf(final(levels)@, side, sym)
                &&& (forall|i: int, j: int|
                    0 <= i < final(levels)@.len() && 0 <= j
                        < (#[trigger] final(levels)@[i]).orders@.len()
                        ==> appears(old(levels)@, #[trigger] final(levels)@[i].orders@[j])
                        && final(levels)@[i].orders@[j].id != order_id)
                &&& (forall|i: int, j: int|
                    0 <= i < old(levels)@.len() && 0 <= j < (#[trigger] old(
                        levels,
                    )@[i]).orders@.len() && old(levels)@[i].orders@[j].id != order_id ==> appears(
                        final(levels)@,
                        #[trigger] old(levels)@[i].orders@[j],
                    ))
            },
            None => {
                &&& final(levels)@ == old(levels)@
                &&& !in_levels_id(old(levels)@, order_id)
            },
        },
{
    let n = levels.len();
    let mut i: usize = 0;
    while i < n
        invariant
            i <= n == levels@.len(),
            *levels == *old(levels),
            levels_wf(levels@, side, sym),
            covers(index@, levels@),
            forall|k: int| 0 <= k < i ==> !in_seq_id((#[trigger] levels@[k]).orders@, order_id),
        decreases n - i,
    {
        if level_has(&levels[i], order_id) {
            let mut lvl = levels.remove(i);
            let o = match lvl.remove_order(order_id) {
                Some(o) => o,
                None => {
                    proof {
                        assert(false);
                    }
                    return None;
                },
            };
            let ghost pos = find_order_index(old(levels)@[i as int].orders@, order_id);
            proof {
                lemma_find_order_index_spec(old(levels)@[i as int].orders@, order_id);
                assert(o == old(levels)@[i as int].orders@[pos]);
                assert(in_levels_id(old(levels)@, order_id)) by {
                    assert(old(levels)@[i as int].orders@[pos].id == order_id);
                }
                assert(index@[order_id] == o);
            }
            if lvl.is_empty() {
                proof {
                    let ls0 = old(levels)@;
                    let ls1 = ls0.remove(i as int);
                    assert forall|k1: int, k2: int| 0 <= k1 < k2 < ls1.len() implies better_price(
                        side,
                        (#[trigger] ls1[k1]).price.units(),
                        (#[trigger] ls1[k2]).price.units(),
                    ) by {
                        if k2 < i {
                        } else if k1 < i {
                            assert(ls1[k2] == ls0[k2 + 1]);
                        } else {
                            assert(ls1[k1] == ls0[k1 + 1]);
                            assert(ls1[k2] == ls0[k2 + 1]);
                        }
                    }
                }
                proof {
                    let ls0 = old(levels)@;
                    let ls1 = ls0.remove(i as int);
                    assert forall|i2: int, j: int|
                        0 <= i2 < ls1.len() && 0 <= j < (#[trigger] ls1[i2]).orders@.len() implies
                        appears(ls0, #[trigger] ls1[i2].orders@[j]) && ls1[i2].orders@[j].id
                            != order_id by {
                        if i2 < i {
                            assert(ls1[i2].orders@[j] == ls0[i2].orders@[j]);
                            if ls1[i2].orders@[j].id == order_id {
                                assert(in_seq_id(ls0[i2].orders@, order_id));
                            }
                        } else {
                            assert(ls1[i2] == ls0[i2 + 1]);
                            assert(ls1[i2].orders@[j] == ls0[i2 + 1].orders@[j]);
                            if ls1[i2].orders@[j].id == order_id {
                                lemma_cross_level_ids(ls0, index@, side, sym, i as int, pos, i2
                                    + 1, j);
                            }
                        }
                    }
                    // every other resting order survives: the dropped level
                    // held only the cancelled order
                    assert(ls0[i as int].orders@.len() == 1);
                    assert forall|i2: int, j: int|
                        0 <= i2 < ls0.len() && 0 <= j < (#[trigger] ls0[i2]).orders@.len()
                            && ls0[i2].orders@[j].id != order_id implies appears(
                        ls1,
                        #[trigger] ls0[i2].orders@[j],
                    ) by {
                        if i2 < i {
                            assert(ls1[i2].orders@[j] == ls0[i2].orders@[j]);
                        } else if i2 > i {
                            assert(ls1[i2 - 1] == ls0[i2]);
                            assert(ls1[i2 - 1].orders@[j] == ls0[i2].orders@[j]);
                        } else {
                            assert(j == pos);
                            assert(false);
                        }
                    }
                }
                return Some(o);
            }
            levels.insert(i, lvl);
            proof {
                let ls0 = old(levels)@;
                let ls1 = levels@;
                assert(ls1.len() == ls0.len());
                assert(forall|k: int| 0 <= k < ls1.len() && k != i ==> ls1[k] == ls0[k]);
                assert(ls1[i as int] == lvl);
                assert(lvl.orders@ == ls0[i as int].orders@.remove(pos));
                assert(lvl.price == ls0[i as int].price);
                assert forall|k: int| 0 <= k < ls1.len() implies (#[trigger] ls1[k]).wf()
                    && ls1[k].uniform(side, sym) && ls1[k].distinct_ids() && ls1[k].orders@.len()
                    > 0 by {
                    if k == i {
                        assert forall|j: int| 0 <= j < lvl.orders@.len() implies {
                            &&& (#[trigger] lvl.orders@[j]).side == side
                            &&& lvl.orders@[j].symbol_id == sym
                            &&& lvl.orders@[j].wf()
                            &&& lvl.orders@[j].price.units() == lvl.price.units()
                            &&& lvl.orders@[j].remaining_units() > 0
                            &&& lvl.orders@[j].is_open()
                        } by {
                            if j < pos {
                                assert(lvl.orders@[j] == ls0[i as int].orders@[j]);
                            } else {
                                assert(lvl.orders@[j] == ls0[i as int].orders@[j + 1]);
                            }
                        }
                        assert forall|j1: int, j2: int| 0 <= j1 < j2 < lvl.orders@.len() implies (
                        #[trigger] lvl.orders@[j1]).id != (#[trigger] lvl.orders@[j2]).id by {
                            let o1 = if j1 < pos { j1 } else { j1 + 1 };
                            let o2 = if j2 < pos { j2 } else { j2 + 1 };
                            assert(lvl.orders@[j1] == ls0[i as int].orders@[o1]);
                            assert(lvl.orders@[j2] == ls0[i as int].orders@[o2]);
                        }
                    }
                }
                assert forall|i2: int, j: int|
                    0 <= i2 < ls1.len() && 0 <= j < (#[trigger] ls1[i2]).orders@.len() implies
                    appears(ls0, #[trigger] ls1[i2].orders@[j]) && ls1[i2].orders@[j].id
                        != order_id by {
                    if i2 == i {
                        let oj = if j < pos { j } else { j + 1 };
                        assert(ls1[i2].orders@[j] == ls0[i2].orders@[oj]);
                        assert(appears(ls0, ls0[i2].orders@[oj]));
                        if ls0[i2].orders@[oj].id == order_id {
                            assert(ls0[i2].orders@[pos].id == order_id);
                        }
                    } else {
                        assert(ls1[i2].orders@[j] == ls0[i2].orders@[j]);
                        assert(appears(ls0, ls0[i2].orders@[j]));
                        if ls0[i2].orders@[j].id == order_id {
                            lemma_cross_level_ids(ls0, index@, side, sym, i as int, pos, i2, j);
                        }
                    }
                }
                // every other resting order survives the removal
                assert forall|i2: int, j: int|
                    0 <= i2 < ls0.len() && 0 <= j < (#[trigger] ls0[i2]).orders@.len()
                        && ls0[i2].orders@[j].id != order_id implies appears(
                    ls1,
                    #[trigger] ls0[i2].orders@[j],
                ) by {
                    if i2 == i {
                        if j < pos {
                            assert(ls1[i2].orders@[j] == ls0[i2].orders@[j]);
                        } else if j > pos {
                            assert(ls1[i2].orders@[j - 1] == ls0[i2].orders@[j]);
                        } else {
                            assert(false);
                        }
                    } else {
                        assert(ls1[i2].orders@[j] == ls0[i2].orders@[j]);
                    }
                }
            }
            return Some(o);
        }
        i = i + 1;
    }
    proof {
        if in_levels_id(levels@, order_id) {
            let (i2, j2) = choose|i2: int, j2: int|
                0 <= i2 < levels@.len() && 0 <= j2 < (#[trigger] levels@[i2]).orders@.len() && (
                #[trigger] levels@[i2].orders@[j2]).id == order_id;
            assert(in_seq_id(levels@[i2].orders@, order_id));
        }
    }
    None
}

impl OrderBook {
    /// Cancel a resting order: remove it from its level (dropping the level
    /// if emptied), mark it cancelled, keep it in the index, and return its
    /// final state.  `None` exactly when no order with this id rests in the
    /// book.
    #[verifier::rlimit(100)]
    #[verifier::spinoff_prover]
    pub fn cancel_order(&mut self, order_id: u64) -> (r: Option<Order>)
        requires
            old(self).wf(),
        ensures
            final(self).symbol_id == old(self).symbol_id,
            final(self).wf(),
            match r {
                Some(o) => {
                    &&& o.id == order_id
                    &&& o.wf()
                    &&& o.status == OrderStatus::Cancelled
                    &&& old(self).orders@.contains_key(order_id)
                    &&& same_core(o, old(self).orders@[order_id])
                    &&& o.filled_quantity == old(self).orders@[order_id].filled_quantity
                    &&& o.remaining_units() > 0
                    &&& (in_levels_id(old(self).bids@, order_id) || in_levels_id(
                        old(self).asks@,
                        order_id,
                    ))
                    &&& final(self).orders@ == old(self).orders@.insert(order_id, o)
                    &&& (o.side == OrderSide::Bid ==> final(self).asks@ == old(self).asks@
                        && removed_only(old(self).bids@, final(self).bids@, order_id))
                    &&& (o.side == OrderSide::Ask ==> final(self).bids@ == old(self).bids@
                        && removed_only(old(self).asks@, final(self).asks@, order_id))
                    &&& final(self).next_trade_id == old(self).next_trade_id
                },
                None => {
                    &&& final(self).bids@ == old(self).bids@
                    &&& final(self).asks@ == old(self).asks@
                    &&& final(self).orders@ == old(self).orders@
                    &&& final(self).next_trade_id == old(self).next_trade_id
                    &&& !in_levels_id(old(self).bids@, order_id)
                    &&& !in_levels_id(old(self).asks@, order_id)
                },
            },
    {
        let ghost sym = self.symbol_id as int;
        let gidx: Ghost<Map<u64, Order>> = Ghost(self.orders@);
        let from_bids = remove_from_side(
            &mut self.bids,
            &gidx,
            order_id,
            Ghost(OrderSide::Bid),
            Ghost(sym),
        );
        let found = match from_bids {
            Some(o) => Some(o),
            None => remove_from_side(
                &mut self.asks,
                &gidx,
                order_id,
                Ghost(OrderSide::Ask),
                Ghost(sym),
            ),
        };
        match found {
            Some(mut o) => {
                o.status = OrderStatus::Cancelled;
                self.orders.insert(order_id, o);
                proof {
                    let m1 = self.orders@;
                    let bids1 = self.bids@;
                    let asks1 = self.asks@;
                    assert forall|i: int, j: int|
                        0 <= i < bids1.len() && 0 <= j < (#[trigger] bids1[i]).orders@.len()
                        implies ({
                        &&& m1.contains_key((#[trigger] bids1[i].orders@[j]).id)
                        &&& m1[bids1[i].orders@[j].id] == bids1[i].orders@[j]
                    }) by {
                        if from_bids is Some {
                            assert(appears(old(self).bids@, bids1[i].orders@[j]));
                            let (i2, j2) = choose|i2: int, j2: int|
                                0 <= i2 < old(self).bids@.len() && 0 <= j2 < (#[trigger] old(
                                    self,
                                ).bids@[i2]).orders@.len() && (#[trigger] old(
                                    self,
                                ).bids@[i2].orders@[j2]) == bids1[i].orders@[j];
                        } else {
                            assert(bids1 == old(self).bids@);
                            if bids1[i].orders@[j].id == order_id {
                                assert(in_levels_id(old(self).bids@, order_id));
                            }
                        }
                    }
                    assert forall|i: int, j: int|
                        0 <= i < asks1.len() && 0 <= j < (#[trigger] asks1[i]).orders@.len()
                        implies ({
                        &&& m1.contains_key((#[trigger] asks1[i].orders@[j]).id)
                        &&& m1[asks1[i].orders@[j].id] == asks1[i].orders@[j]
                    }) by {
                        if from_bids is Some {
                            assert(asks1 == old(self).asks@);
                            if asks1[i].orders@[j].id == order_id {
                                lemma_cross_side(
                                    old(self).orders@,
                                    old(self).bids@,
                                    old(self).asks@,
                                    OrderSide::Bid,
                                    sym,
                                    order_id,
                                );
                            }
                        } else {
                            assert(appears(old(self).asks@, asks1[i].orders@[j]));
                            let (i2, j2) = choose|i2: int, j2: int|
                                0 <= i2 < old(self).asks@.len() && 0 <= j2 < (#[trigger] old(
                                    self,
                                ).asks@[i2]).orders@.len() && (#[trigger] old(
                                    self,
                                ).asks@[i2].orders@[j2]) == asks1[i].orders@[j];
                        }
                    }
                }
                Some(o)
            },
            None => None,
        }
    }
}

/// Count the orders resting across one side's levels.
fn count_orders(levels: &Vec<PriceLevel>) -> (r: Option<u64>)
    ensures
        match r {
            Some(c) => c == total_orders(levels@),
            None => total_orders(levels@) > u64::MAX,
        },
{
    let n = levels.len();
    let mut acc: u64 = 0;
    let mut i: usize = 0;
    proof {
        assert(levels@.take(0) =~= Seq::<PriceLevel>::empty());
    }
    while i < n
        invariant
            i <= n == levels@.len(),
            acc == total_orders(levels@.take(i as int)),
        decreases n - i,
    {
        let len = levels[i].orders.len();
        proof {
            assert(levels@.take(i as int + 1).drop_last() =~= levels@.take(i as int));
            assert(levels@.take(i as int + 1).last() == levels@[i as int]);
        }
        if acc > u64::MAX - (len as u64) {
            proof {
                lemma_total_orders_take_le(levels@, i as int + 1);
            }
            return None;
        }
        acc = acc + (len as u64);
        i = i + 1;
    }
    proof {
        assert(levels@.take(n as int) =~= levels@);
    }
    Some(acc)
}

/// A prefix of the levels counts at most the whole.
proof fn lemma_total_orders_take_le(ls: Seq<PriceLevel>, j: int)
    requires
        0 <= j <= ls.len(),
    ensures
        total_orders(ls.take(j)) <= total_orders(ls),
    decreases ls.len() - j,
{
    if j == ls.len() {
        assert(ls.take(j) =~= ls);
    } else {
        assert(ls.take(j + 1).drop_last() =~= ls.take(j));
        assert(ls.take(j + 1).last() == ls[j]);
        lemma_total_orders_take_le(ls, j + 1);
    }
}

/// One matcher shard: a book per symbol, an order-id counter, and the
/// history of executed trades.
#[derive(Debug)]
pub struct MatchingEngine {
    pub order_books: std::collections::HashMap<i32, OrderBook>,
    pub next_order_id: u64,
    pub trades: Vec<Trade>,
}

impl MatchingEngine {
    /// Books are well-formed, keyed by their symbol, and every order id the
    /// engine ever assigned is below the counter.
    pub open spec fn wf(&self) -> bool {
        forall|sid: i32|
            #[trigger] self.order_books@.contains_key(sid) ==> {
                &&& self.order_books@[sid].wf()
                &&& self.order_books@[sid].symbol_id == sid
                &&& (forall|oid: u64|
                    #[trigger] self.order_books@[sid].orders@.contains_key(oid) ==> oid
                        < self.next_order_id)
            }
    }

    /// An empty engine.
    pub fn new() -> (r: MatchingEngine)
        ensures
            r.wf(),
            r.next_order_id == 1,
            r.trades@.len() == 0,
            r.order_books@ == Map::<i32, OrderBook>::empty(),
    {
        let r = MatchingEngine {
            order_books: std::collections::HashMap::new(),
            next_order_id: 1,
            trades: Vec::new(),
        };
        r
    }

    /// Parse and place an order on the symbol's book; returns the new order
    /// id and the trades the matching produced, oldest first.  Succeeds if
    /// and only if the kind and side codes are known, the quantity (and, for
    /// a limit order, the price) denotes a non-negative amount with positive
    /// quantity, and id space remains; the book transition is exactly
    /// `add_order_post` for the parsed order.
    #[verifier::rlimit(100)]
    #[verifier::spinoff_prover]
    pub fn place_order(
        &mut self,
        request_id: u128,
        symbol_id: i32,
        account_id: i32,
        order_type: i32,
        side: i32,
        price_str: &str,
        quantity_str: &str,
        now_ms: u64,
    ) -> (r: Result<(u64, Vec<Trade>), crate::models::BalanceError>)
        requires
            old(self).wf(),
        ensures
            final(self).wf(),
            ({
                let pq = crate::decimal::parse_chars(quantity_str@);
                let pp = crate::decimal::parse_chars(price_str@);
                let ok_conditions = {
                    &&& (order_type == 0 || order_type == 1)
                    &&& (side == 0 || side == 1)
                    &&& (pq matches Some(q) && !q.0 && q.1 > 0)
                    &&& (order_type == 1 || (pp matches Some(p) && !p.0))
                    &&& old(self).next_order_id < u64::MAX
                    &&& (old(self).order_books@.contains_key(symbol_id) ==> ({
                        let b = old(self).order_books@[symbol_id];
                        b.next_trade_id + total_orders(
                            if side == 1 {
                                b.bids@
                            } else {
                                b.asks@
                            },
                        ) <= u64::MAX
                    }))
                };
                &&& (r is Ok <==> ok_conditions)
                &&& (match r {
                    Ok(p) => {
                        let od = spec_new_order(
                            p.0,
                            request_id,
                            symbol_id,
                            account_id,
                            order_type,
                            side,
                            price_str@,
                            quantity_str@,
                            now_ms,
                        );
                        &&& p.0 == old(self).next_order_id
                        &&& final(self).next_order_id == old(self).next_order_id + 1
                        &&& final(self).order_books@.contains_key(symbol_id)
                        &&& (old(self).order_books@.contains_key(symbol_id) ==> add_order_post(
                            old(self).order_books@[symbol_id],
                            final(self).order_books@[symbol_id],
                            od,
                            now_ms,
                            p.1@,
                        ))
                        &&& (!old(self).order_books@.contains_key(symbol_id) ==> exists|
                            b0: OrderBook,
                        |
                            (#[trigger] empty_book(b0, symbol_id)) && add_order_post(
                                b0,
                                final(self).order_books@[symbol_id],
                                od,
                                now_ms,
                                p.1@,
                            ))
                        &&& (forall|sid: i32|
                            sid != symbol_id ==> (final(self).order_books@.contains_key(sid) <==> old(
                                self,
                            ).order_books@.contains_key(sid)))
                        &&& (forall|sid: i32|
                            sid != symbol_id && old(self).order_books@.contains_key(sid)
                                ==> #[trigger] final(self).order_books@[sid] == old(
                                self,
                            ).order_books@[sid])
                        &&& final(self).trades@ == old(self).trades@ + p.1@
                    },
                    Err(e) => {
                        &&& e is InvalidAmount
                        &&& final(self).order_books@ == old(self).order_books@
                        &&& final(self).next_order_id == old(self).next_order_id
                        &&& final(self).trades@ == old(self).trades@
                    },
                })
            }),
    {
        if !(order_type == 0 || order_type == 1) || !(side == 0 || side == 1) {
            return Err(
                crate::models::BalanceError::InvalidAmount(
                    String::from_str("Invalid order type or side"),
                ),
            );
        }
        let quantity = match Decimal::parse(quantity_str) {
            Some(p) => {
                if p.0 {
                    return Err(
                        crate::models::BalanceError::InvalidAmount(
                            String::from_str("Amount must be positive"),
                        ),
                    );
                }
                p.1
            },
            None => {
                return Err(
                    crate::models::BalanceError::InvalidAmount(
                        String::from_str("Invalid quantity format"),
                    ),
                );
            },
        };
        if quantity.is_zero() {
            proof {
                // a zero value means a zero mantissa, so the success
                // condition fails
                quantity.lemma_units_bounds_mantissa_pub();
            }
            return Err(
                crate::models::BalanceError::InvalidAmount(
                    String::from_str("Amount must be positive"),
                ),
            );
        }
        proof {
            if quantity.mantissa == 0 {
                vstd::arithmetic::mul::lemma_mul_by_zero_is_zero(
                    crate::decimal::ten_pow(
                        (crate::decimal::MAX_SCALE - quantity.scale) as nat,
                    ) as int,
                );
                assert(quantity.units() == 0);
            }
        }
        let otype = OrderType::from(order_type);
        let oside = OrderSide::from(side);
        let price = match otype {
            OrderType::Market => Decimal::zero(),
            OrderType::Limit => {
                match Decimal::parse(price_str) {
                    Some(p) => {
                        if p.0 {
                            return Err(
                                crate::models::BalanceError::InvalidAmount(
                                    String::from_str("Amount must be positive"),
                                ),
                            );
                        }
                        p.1
                    },
                    None => {
                        return Err(
                            crate::models::BalanceError::InvalidAmount(
                                String::from_str("Invalid price format"),
                            ),
                        );
                    },
                }
            },
        };
        if self.next_order_id == u64::MAX {
            return Err(
                crate::models::BalanceError::InvalidAmount(
                    String::from_str("order id space exhausted"),
                ),
            );
        }
        let order_id = self.next_order_id;
        let mut existed = true;
        let mut book = match self.order_books.remove(&symbol_id) {
            Some(b) => b,
            None => {
                existed = false;
                OrderBook::new(symbol_id)
            },
        };
        let headroom = match oside {
            OrderSide::Bid => count_orders(&book.asks),
            OrderSide::Ask => count_orders(&book.bids),
        };
        let over = match headroom {
            Some(c) => book.next_trade_id > u64::MAX - c,
            None => true,
        };
        if over {
            proof {
                assert(existed) by {
                    if !existed {
                        lemma_total_orders_nonneg(book.bids@);
                        lemma_total_orders_nonneg(book.asks@);
                        assert(total_orders(book.bids@) == 0);
                        assert(total_orders(book.asks@) == 0);
                    }
                }
            }
            self.order_books.insert(symbol_id, book);
            proof {
                assert(self.order_books@ =~= old(self).order_books@);
            }
            return Err(
                crate::models::BalanceError::InvalidAmount(
                    String::from_str("trade id space exhausted"),
                ),
            );
        }
        let ghost tid0 = book.next_trade_id;
        let ghost book0 = book;
        let ghost pre_index = book.orders@;
        proof {
            assert forall|oid: u64| #[trigger] pre_index.contains_key(oid) implies oid
                < self.next_order_id by {
                assert(old(self).order_books@.contains_key(symbol_id));
                assert(old(self).order_books@[symbol_id].orders@.contains_key(oid));
            }
        }
        let order = Order::new(
            order_id,
            request_id,
            symbol_id,
            account_id,
            otype,
            oside,
            price,
            quantity,
            now_ms,
        );
        proof {
            let od = spec_new_order(order_id, request_id, symbol_id, account_id, order_type,
                side, price_str@, quantity_str@, now_ms);
            assert(order.quantity == od.quantity) by {
                let q = crate::decimal::parse_chars(quantity_str@)->Some_0;
                assert(q.1 == quantity.mantissa as nat);
                assert(q.2 == quantity.scale as nat);
            }
            assert(order.price == od.price) by {
                if order_type != 1 {
                    let p = crate::decimal::parse_chars(price_str@)->Some_0;
                    assert(p.1 == price.mantissa as nat);
                    assert(p.2 == price.scale as nat);
                }
            }
            assert(order.filled_quantity == od.filled_quantity);
            assert(order == od);
            if !existed {
                assert(empty_book(book0, symbol_id));
            }
        }
        let trades = book.add_order(order, now_ms);
        let ghost gbook = book;
        let ghost books_mid = self.order_books@;
        let n = trades.len();
        let mut i: usize = 0;
        while i < n
            invariant
                i <= n == trades@.len(),
                self.trades@ == old(self).trades@ + trades@.take(i as int),
                self.order_books@ == books_mid,
                self.next_order_id == old(self).next_order_id,
            decreases n - i,
        {
            proof {
                assert((old(self).trades@ + trades@.take(i as int)).push(trades@[i as int]) =~= old(
                    self,
                ).trades@ + trades@.take(i as int + 1));
            }
            self.trades.push(trades[i]);
            i = i + 1;
        }
        self.next_order_id = self.next_order_id + 1;
        self.order_books.insert(symbol_id, book);
        proof {
            assert(trades@.take(n as int) =~= trades@);
            assert(add_order_post(book0, gbook, order, now_ms, trades@));
            assert forall|sid: i32| #[trigger] self.order_books@.contains_key(sid) implies ({
                &&& self.order_books@[sid].wf()
                &&& self.order_books@[sid].symbol_id == sid
                &&& (forall|oid: u64|
                    #[trigger] self.order_books@[sid].orders@.contains_key(oid) ==> oid
                        < self.next_order_id)
            }) by {
                if sid == symbol_id {
                    assert(self.order_books@[sid] == gbook);
                    assert forall|oid: u64|
                        #[trigger] self.order_books@[sid].orders@.contains_key(oid) implies oid
                        < self.next_order_id by {
                        assert(gbook.orders@.contains_key(oid));
                        if oid != order_id {
                            assert(pre_index.contains_key(oid));
                        }
                    }
                }
            }
        }
        Ok((order_id, trades))
    }

    /// Cancel a resting order on the symbol's book on behalf of an account:
    /// not-found when no such order rests, forbidden (and no state change)
    /// when it belongs to someone else, otherwise the order is removed,
    /// marked cancelled and returned.
    pub fn cancel_order(&mut self, symbol_id: i32, account_id: i32, order_id: u64) -> (r:
        CancelOutcome)
        requires
            old(self).wf(),
        ensures
            final(self).wf(),
            final(self).trades@ == old(self).trades@,
            final(self).next_order_id == old(self).next_order_id,
            match r {
                CancelOutcome::Cancelled(o) => {
                    &&& o.id == order_id
                    &&& o.status == OrderStatus::Cancelled
                    &&& o.wf()
                    &&& o.account_id == account_id
                    &&& o.remaining_units() > 0
                    &&& old(self).order_books@.contains_key(symbol_id)
                    &&& ({
                        let b0 = old(self).order_books@[symbol_id];
                        let b1 = final(self).order_books@[symbol_id];
                        &&& b0.orders@.contains_key(order_id)
                        &&& same_core(o, b0.orders@[order_id])
                        &&& o.filled_quantity == b0.orders@[order_id].filled_quantity
                        &&& (in_levels_id(b0.bids@, order_id) || in_levels_id(b0.asks@, order_id))
                        &&& final(self).order_books@.contains_key(symbol_id)
                        &&& b1.orders@ == b0.orders@.insert(order_id, o)
                        &&& (o.side == OrderSide::Bid ==> b1.asks@ == b0.asks@ && removed_only(
                            b0.bids@,
                            b1.bids@,
                            order_id,
                        ))
                        &&& (o.side == OrderSide::Ask ==> b1.bids@ == b0.bids@ && removed_only(
                            b0.asks@,
                            b1.asks@,
                            order_id,
                        ))
                        &&& b1.next_trade_id == b0.next_trade_id
                    })
                    &&& (forall|sid: i32|
                        sid != symbol_id ==> (final(self).order_books@.contains_key(sid) <==> old(
                            self,
                        ).order_books@.contains_key(sid)))
                    &&& (forall|sid: i32|
                        sid != symbol_id && old(self).order_books@.contains_key(sid)
                            ==> #[trigger] final(self).order_books@[sid] == old(
                            self,
                        ).order_books@[sid])
                },
                CancelOutcome::Forbidden => {
                    &&& final(self).order_books@ == old(self).order_books@
                    &&& old(self).order_books@.contains_key(symbol_id)
                    &&& ({
                        let b0 = old(self).order_books@[symbol_id];
                        &&& (in_levels_id(b0.bids@, order_id) || in_levels_id(b0.asks@, order_id))
                        &&& b0.orders@.contains_key(order_id)
                        &&& b0.orders@[order_id].account_id != account_id
                    })
                },
                CancelOutcome::NotFound => {
                    &&& final(self).order_books@ == old(self).order_books@
                    &&& (!old(self).order_books@.contains_key(symbol_id) || ({
                        let b0 = old(self).order_books@[symbol_id];
                        !in_levels_id(b0.bids@, order_id) && !in_levels_id(b0.asks@, order_id)
                    }))
                },
            },
    {
        let mut book = match self.order_books.remove(&symbol_id) {
            Some(b) => b,
            None => {
                proof {
                    assert(self.order_books@ =~= old(self).order_books@);
                }
                return CancelOutcome::NotFound;
            },
        };
        let owner = book.resting_owner(order_id);
        match owner {
            None => {
                self.order_books.insert(symbol_id, book);
                proof {
                    assert(self.order_books@ =~= old(self).order_books@);
                }
                CancelOutcome::NotFound
            },
            Some(aid) => {
                if aid != account_id {
                    self.order_books.insert(symbol_id, book);
                    proof {
                        assert(self.order_books@ =~= old(self).order_books@);
                    }
                    return CancelOutcome::Forbidden;
                }
                let r = match book.cancel_order(order_id) {
                    Some(o) => o,
                    None => {
                        proof {
                            assert(false);
                        }
                        self.order_books.insert(symbol_id, book);
                        return CancelOutcome::NotFound;
                    },
                };
                self.order_books.insert(symbol_id, book);
                proof {
                    assert forall|sid: i32| #[trigger] self.order_books@.contains_key(sid)
                        implies ({
                        &&& self.order_books@[sid].wf()
                        &&& self.order_books@[sid].symbol_id == sid
                        &&& (forall|oid: u64|
                            #[trigger] self.order_books@[sid].orders@.contains_key(oid) ==> oid
                                < self.next_order_id)
                    }) by {
                        if sid == symbol_id {
                            assert forall|oid: u64|
                                #[trigger] self.order_books@[sid].orders@.contains_key(oid)
                                implies oid < self.next_order_id by {
                                assert(old(self).order_books@[symbol_id].orders@.contains_key(
                                    oid,
                                ));
                            }
                        }
                    }
                }
                CancelOutcome::Cancelled(r)
            },
        }
    }

    /// The book for a symbol, if the engine has seen it.
    pub fn get_order_book(&self, symbol_id: i32) -> (r: Option<&OrderBook>)
        requires
            self.wf(),
        ensures
            match r {
                Some(b) => self.order_books@.contains_key(symbol_id) && *b
                    == self.order_books@[symbol_id] && b.wf(),
                None => !self.order_books@.contains_key(symbol_id),
            },
    {
        self.order_books.get(&symbol_id)
    }

    /// Up to `limit` most recent trades of one symbol, newest first:
    /// exactly the newest-first filter `spec_recent` of the trade history.
    pub fn get_recent_trades(&self, symbol_id: i32, limit: usize) -> (r: Vec<Trade>)
        requires
            self.wf(),
        ensures
            r@ == spec_recent(self.trades@, symbol_id, limit as nat),
            r@.len() <= limit,
    {
        let ghost full = self.trades@;
        let mut r: Vec<Trade> = Vec::new();
        let mut i = self.trades.len();
        proof {
            assert(full.take(i as int) =~= full);
        }
        while i > 0
            invariant
                i <= self.trades@.len(),
                full == self.trades@,
                r@.len() <= limit,
                spec_recent(full, symbol_id, limit as nat) == r@ + spec_recent(
                    full.take(i as int),
                    symbol_id,
                    (limit - r@.len()) as nat,
                ),
            decreases i,
        {
            if r.len() >= limit {
                proof {
                    assert(spec_recent(full.take(i as int), symbol_id, 0) =~= Seq::<
                        Trade,
                    >::empty());
                    assert(r@ + Seq::<Trade>::empty() =~= r@);
                }
                return r;
            }
            i = i - 1;
            proof {
                assert(full.take(i as int + 1).drop_last() =~= full.take(i as int));
                assert(full.take(i as int + 1).last() == full[i as int]);
            }
            if self.trades[i].symbol_id == symbol_id {
                let ghost r0 = r@;
                r.push(self.trades[i]);
                proof {
                    assert(r@ =~= r0 + seq![full[i as int]]);
                    assert(r0 + (seq![full[i as int]] + spec_recent(full.take(i as int),
                        symbol_id, (limit - r@.len()) as nat)) =~= r@ + spec_recent(
                        full.take(i as int),
                        symbol_id,
                        (limit - r@.len()) as nat,
                    ));
                }
            }
        }
        proof {
            assert(full.take(0) =~= Seq::<Trade>::empty());
            assert(spec_recent(Seq::<Trade>::empty(), symbol_id, (limit - r@.len()) as nat)
                =~= Seq::<Trade>::empty());
            assert(r@ + Seq::<Trade>::empty() =~= r@);
        }
        r
    }
}

} // verus!
