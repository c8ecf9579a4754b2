//! The core's cross-cutting guarantees, stated and proved once.
//!
//! The balance identity itself is the `wf` invariant of
//! [`crate::balance::AccountBalance`], established by its constructor and
//! preserved by every operation; price-time priority within a level is the
//! contract of [`crate::matching::fill_level`] (trade `t` is made against
//! the level's `t`-th queued order); taker price monotonicity is the
//! `prices_monotone` clause of [`crate::matching::OrderBook::add_order`].
//! The proofs here cover the laws that relate several operations.

use vstd::prelude::*;
use crate::balance::{settled_side, stored_units, AccountBalance};
use vstd::seq::Seq;

verus! {

/// Balance identity: for every account and currency,
/// `total = frozen + available` and every part is non-negative.
pub proof fn lemma_balance_identity(b: AccountBalance)
    requires
        b.wf(),
    ensures
        b.total.units() == b.frozen.units() + b.available.units(),
        b.total.units() >= 0,
        b.frozen.units() >= 0,
        b.available.units() >= 0,
{
    b.total.lemma_units_bounds_mantissa_pub();
    b.frozen.lemma_units_bounds_mantissa_pub();
    b.available.lemma_units_bounds_mantissa_pub();
}

/// Round trip of cancel: freezing collateral `a` (as placing an order does)
/// and then releasing the same `a` (as cancelling an untouched order does,
/// since its remaining quantity still equals its full quantity) returns the
/// balance triple to exactly its pre-place values.  The hypotheses are the
/// `Ok` contracts of `AccountBalance::freeze` and `AccountBalance::unfreeze`.
pub proof fn lemma_cancel_round_trip(
    b0: AccountBalance,
    b1: AccountBalance,
    b2: AccountBalance,
    a: int,
)
    requires
        b0.wf(),
        b1.wf(),
        b2.wf(),
        a > 0,
        b0.available.units() >= a,
        // the freeze performed when the order was placed
        b1.total.units() == b0.total.units(),
        b1.available.units() == b0.available.units() - a,
        b1.frozen.units() == b0.frozen.units() + a,
        // the refund performed when the order was cancelled
        b2.total.units() == b1.total.units(),
        b2.frozen.units() == b1.frozen.units() - a,
        b2.available.units() == b1.available.units() + a,
    ensures
        b2.total.units() == b0.total.units(),
        b2.frozen.units() == b0.frozen.units(),
        b2.available.units() == b0.available.units(),
{
}

/// Mass conservation under settlement: one trade of quantity `q` at
/// notional `n = price * q` moves `n` of the quote currency from the buyer
/// to the seller and `q` of the base currency from the seller to the buyer;
/// summed over the two parties, neither currency's total changes, provided
/// each side's collateral was frozen in full beforehand (so the clamp in
/// `settle_deduct` does not engage).  The hypotheses are the contracts of
/// `AccountBalance::settle_deduct` and `AccountBalance::settle_add` applied
/// to the four balances `execute_single_trade` touches.
pub proof fn lemma_trade_conserves_totals(
    buyer_quote0: AccountBalance,
    buyer_quote1: AccountBalance,
    buyer_base0: AccountBalance,
    buyer_base1: AccountBalance,
    seller_base0: AccountBalance,
    seller_base1: AccountBalance,
    seller_quote0: AccountBalance,
    seller_quote1: AccountBalance,
    n: int,
    q: int,
)
    requires
        // buyer side: pay n of quote from frozen, receive q of base
        buyer_quote0.frozen.units() >= n,
        buyer_quote1.total.units() == buyer_quote0.total.units() - n,
        buyer_base1.total.units() == buyer_base0.total.units() + q,
        // seller side: pay q of base from frozen, receive n of quote
        seller_base0.frozen.units() >= q,
        seller_base1.total.units() == seller_base0.total.units() - q,
        seller_quote1.total.units() == seller_quote0.total.units() + n,
    ensures
        buyer_quote1.total.units() + seller_quote1.total.units() == buyer_quote0.total.units()
            + seller_quote0.total.units(),
        buyer_base1.total.units() + seller_base1.total.units() == buyer_base0.total.units()
            + seller_base0.total.units(),
{
}

/// Round trip of cancel, over the stored balance triples the handlers speak
/// of: `BalanceManager::handle_place_order` freezes collateral `a` (its `Ok`
/// ensures), and `BalanceManager::unfreeze_order_balance` releases
/// `min(a, frozen)` (its `Ok` ensures); while the collateral is still frozen
/// in full — as it is immediately after the place — the release is exactly
/// `a` and the triple returns to its pre-place value.
pub proof fn lemma_cancel_round_trip_stored(
    b0: (int, int, int),
    b1: (int, int, int),
    b2: (int, int, int),
    a: int,
)
    requires
        a > 0,
        // the freeze performed by handle_place_order
        b1 == (b0.0, b0.1 + a, b0.2 - a),
        // the refund performed by unfreeze_order_balance, unclamped because
        // the collateral is still frozen in full
        a <= b1.1,
        b2 == (b1.0, b1.1 - a, b1.2 + a),
    ensures
        b2 == b0,
{
}

/// Mass conservation bound to the settlement contract: when a shard owns
/// both sides of a trade, `BalanceManager::execute_single_trade` ensures two
/// `settled_side` steps; for distinct parties and distinct currencies, with
/// both collaterals pre-frozen in full (so neither clamp engages), the two
/// parties' combined `total` changes by zero in the quote currency and by
/// zero in the base currency.
pub proof fn lemma_settlement_conserves_totals(
    s0: Seq<crate::balance::Account>,
    mid: Seq<crate::balance::Account>,
    s2: Seq<crate::balance::Account>,
    buy: int,
    sell: int,
    quote: int,
    base: int,
    n: int,
    q: int,
)
    requires
        buy != sell,
        quote != base,
        n <= stored_units(s0, buy, quote).1,
        q <= stored_units(s0, sell, base).1,
        settled_side(s0, mid, buy, quote, n, base, q),
        settled_side(mid, s2, sell, base, q, quote, n),
    ensures
        stored_units(s2, buy, quote).0 + stored_units(s2, sell, quote).0 == stored_units(
            s0,
            buy,
            quote,
        ).0 + stored_units(s0, sell, quote).0,
        stored_units(s2, buy, base).0 + stored_units(s2, sell, base).0 == stored_units(
            s0,
            buy,
            base,
        ).0 + stored_units(s0, sell, base).0,
{
    // the buyer's pairs are untouched by the seller's step
    assert(stored_units(s2, buy, quote) == stored_units(mid, buy, quote));
    assert(stored_units(s2, buy, base) == stored_units(mid, buy, base));
    // the seller's pairs are untouched by the buyer's step
    assert(stored_units(mid, sell, quote) == stored_units(s0, sell, quote));
    assert(stored_units(mid, sell, base) == stored_units(s0, sell, base));
    // neither deduction clamps
    assert(stored_units(mid, buy, quote).0 == stored_units(s0, buy, quote).0 - n);
    assert(stored_units(s2, sell, base).0 == stored_units(mid, sell, base).0 - q);
}

} // verus!
