//! Account balances and the freeze/settle/unfreeze rules of the sequencer.
//!
//! Every per-account, per-currency balance keeps the identity
//! `total = frozen + available` with all three parts non-negative; every
//! operation here preserves it or reports an error and changes nothing.

use vstd::prelude::*;
use vstd::string::StringExecFns;
use crate::decimal::{Decimal, UNITS_BOUND};
use crate::models::{BalanceError, GlobalConfig, find_symbol, get_symbol, owner_shard,
    shard_index};
use crate::matching::{Order, OrderSide, Trade};

verus! {

/// Funds of one account in one currency.
#[derive(Debug, Clone, Copy)]
pub struct AccountBalance {
    pub currency_id: i32,
    pub total: Decimal,
    pub frozen: Decimal,
    pub available: Decimal,
}

impl AccountBalance {
    /// The balance identity: parts well-formed and
    /// `total = frozen + available` (all parts are non-negative by
    /// construction).
    pub open spec fn wf(&self) -> bool {
        &&& self.total.wf()
        &&& self.frozen.wf()
        &&& self.available.wf()
        &&& self.total.units() == self.frozen.units() + self.available.units()
    }

    /// An empty balance.
    pub fn new(currency_id: i32) -> (r: AccountBalance)
        ensures
            r.wf(),
            r.currency_id == currency_id,
            r.total.units() == 0 && r.frozen.units() == 0 && r.available.units() == 0,
            r.total.scale == 0 && r.frozen.scale == 0 && r.available.scale == 0,
            r.total.mantissa == 0 && r.frozen.mantissa == 0 && r.available.mantissa == 0,
    {
        AccountBalance {
            currency_id,
            total: Decimal::zero(),
            frozen: Decimal::zero(),
            available: Decimal::zero(),
        }
    }

    /// Deposit: `total += a; available += a` for positive `a` that keeps the
    /// total representable.
    pub fn increase(&mut self, amount: Decimal) -> (r: Result<(), BalanceError>)
        requires
            old(self).wf(),
            amount.wf(),
        ensures
            final(self).currency_id == old(self).currency_id,
            final(self).wf(),
            match r {
                Ok(()) => {
                    &&& amount.units() > 0
                    &&& old(self).total.units() + amount.units() < UNITS_BOUND as int
                    &&& final(self).total.units() == old(self).total.units() + amount.units()
                    &&& final(self).available.units() == old(self).available.units()
                        + amount.units()
                    &&& final(self).frozen == old(self).frozen
                },
                Err(e) => {
                    &&& *final(self) == *old(self)
                    &&& (amount.units() == 0 || old(self).total.units() + amount.units()
                        >= UNITS_BOUND as int)
                    &&& e is InvalidAmount
                },
            },
    {
        if amount.is_zero() {
            return Err(
                BalanceError::InvalidAmount(String::from_str("Amount must be positive")),
            );
        }
        proof {
            amount.lemma_units_bounds_mantissa_pub();
            old(self).available.lemma_units_bounds_mantissa_pub();
            old(self).frozen.lemma_units_bounds_mantissa_pub();
        }
        match self.total.checked_add(&amount) {
            Some(t) => {
                match self.available.checked_add(&amount) {
                    Some(a) => {
                        self.total = t;
                        self.available = a;
                        Ok(())
                    },
                    None => {
                        proof {
                            assert(false);
                        }
                        Err(
                            BalanceError::InvalidAmount(
                                String::from_str("Amount out of range"),
                            ),
                        )
                    },
                }
            },
            None => Err(
                BalanceError::InvalidAmount(String::from_str("Amount out of range")),
            ),
        }
    }

    /// Withdrawal: `total -= a; available -= a` for positive `a` within the
    /// available funds.
    pub fn decrease(&mut self, amount: Decimal) -> (r: Result<(), BalanceError>)
        requires
            old(self).wf(),
            amount.wf(),
        ensures
            final(self).currency_id == old(self).currency_id,
            final(self).wf(),
            match r {
                Ok(()) => {
                    &&& amount.units() > 0
                    &&& old(self).available.units() >= amount.units()
                    &&& final(self).total.units() == old(self).total.units() - amount.units()
                    &&& final(self).available.units() == old(self).available.units()
                        - amount.units()
                    &&& final(self).frozen == old(self).frozen
                },
                Err(e) => {
                    &&& *final(self) == *old(self)
                    &&& (match e {
                        BalanceError::InvalidAmount(_) => amount.units() == 0,
                        BalanceError::InsufficientBalance => amount.units() > 0 && old(
                            self,
                        ).available.units() < amount.units(),
                        _ => false,
                    })
                },
            },
    {
        if amount.is_zero() {
            return Err(
                BalanceError::InvalidAmount(String::from_str("Amount must be positive")),
            );
        }
        if self.available.lt(&amount) {
            return Err(BalanceError::InsufficientBalance);
        }
        proof {
            old(self).frozen.lemma_units_bounds_mantissa_pub();
        }
        let a = match self.available.checked_sub(&amount) {
            Some(a) => a,
            None => {
                proof {
                    assert(false);
                }
                Decimal::zero()
            },
        };
        let t = match self.total.checked_sub(&amount) {
            Some(t) => t,
            None => {
                proof {
                    assert(false);
                }
                Decimal::zero()
            },
        };
        self.available = a;
        self.total = t;
        Ok(())
    }

    /// Reserve collateral: `available -= a; frozen += a`, total unchanged.
    pub fn freeze(&mut self, amount: Decimal) -> (r: Result<(), BalanceError>)
        requires
            old(self).wf(),
            amount.wf(),
        ensures
            final(self).currency_id == old(self).currency_id,
            final(self).wf(),
            match r {
                Ok(()) => {
                    &&& amount.units() > 0
                    &&& old(self).available.units() >= amount.units()
                    &&& final(self).total == old(self).total
                    &&& final(self).available.units() == old(self).available.units()
                        - amount.units()
                    &&& final(self).frozen.units() == old(self).frozen.units() + amount.units()
                },
                Err(e) => {
                    &&& *final(self) == *old(self)
                    &&& (match e {
                        BalanceError::InvalidAmount(_) => amount.units() == 0,
                        BalanceError::InsufficientBalance => amount.units() > 0 && old(
                            self,
                        ).available.units() < amount.units(),
                        _ => false,
                    })
                },
            },
    {
        if amount.is_zero() {
            return Err(
                BalanceError::InvalidAmount(String::from_str("Amount must be positive")),
            );
        }
        if self.available.lt(&amount) {
            return Err(BalanceError::InsufficientBalance);
        }
        proof {
            old(self).frozen.lemma_units_bounds_mantissa_pub();
            old(self).available.lemma_units_bounds_mantissa_pub();
        }
        let a = match self.available.checked_sub(&amount) {
            Some(a) => a,
            None => {
                proof {
                    assert(false);
                }
                Decimal::zero()
            },
        };
        let f = match self.frozen.checked_add(&amount) {
            Some(f) => f,
            None => {
                proof {
                    assert(false);
                }
                Decimal::zero()
            },
        };
        self.available = a;
        self.frozen = f;
        Ok(())
    }

    /// Release collateral: `frozen -= a; available += a`, total unchanged.
    pub fn unfreeze(&mut self, amount: Decimal) -> (r: Result<(), BalanceError>)
        requires
            old(self).wf(),
            amount.wf(),
        ensures
            final(self).currency_id == old(self).currency_id,
            final(self).wf(),
            match r {
                Ok(()) => {
                    &&& amount.units() > 0
                    &&& old(self).frozen.units() >= amount.units()
                    &&& final(self).total == old(self).total
                    &&& final(self).frozen.units() == old(self).frozen.units() - amount.units()
                    &&& final(self).available.units() == old(self).available.units()
                        + amount.units()
                },
                Err(e) => {
                    &&& *final(self) == *old(self)
                    &&& (match e {
                        BalanceError::InvalidAmount(_) => amount.units() == 0,
                        BalanceError::InsufficientBalance => amount.units() > 0 && old(
                            self,
                        ).frozen.units() < amount.units(),
                        _ => false,
                    })
                },
            },
    {
        if amount.is_zero() {
            return Err(
                BalanceError::InvalidAmount(String::from_str("Amount must be positive")),
            );
        }
        if self.frozen.lt(&amount) {
            return Err(BalanceError::InsufficientBalance);
        }
        proof {
            old(self).frozen.lemma_units_bounds_mantissa_pub();
            old(self).available.lemma_units_bounds_mantissa_pub();
        }
        let f = match self.frozen.checked_sub(&amount) {
            Some(f) => f,
            None => {
                proof {
                    assert(false);
                }
                Decimal::zero()
            },
        };
        let a = match self.available.checked_add(&amount) {
            Some(a) => a,
            None => {
                proof {
                    assert(false);
                }
                Decimal::zero()
            },
        };
        self.frozen = f;
        self.available = a;
        Ok(())
    }

    /// Settlement deduction: take `amount` out of `frozen` and `total`
    /// together, clamped to the frozen funds so the parts never go negative.
    pub fn settle_deduct(&mut self, amount: Decimal)
        requires
            old(self).wf(),
            amount.wf(),
        ensures
            final(self).currency_id == old(self).currency_id,
            final(self).wf(),
            final(self).available == old(self).available,
            ({
                let d = if amount.units() <= old(self).frozen.units() {
                    amount.units()
                } else {
                    old(self).frozen.units()
                };
                &&& final(self).frozen.units() == old(self).frozen.units() - d
                &&& final(self).total.units() == old(self).total.units() - d
            }),
    {
        proof {
            old(self).available.lemma_units_bounds_mantissa_pub();
        }
        let d = amount.min(&self.frozen);
        let f = match self.frozen.checked_sub(&d) {
            Some(f) => f,
            None => {
                proof {
                    assert(false);
                }
                Decimal::zero()
            },
        };
        let t = match self.total.checked_sub(&d) {
            Some(t) => t,
            None => {
                proof {
                    assert(false);
                }
                Decimal::zero()
            },
        };
        self.frozen = f;
        self.total = t;
    }

    /// Settlement credit: add `amount` to `total` and `available` together;
    /// fails, changing nothing, only when the total would leave the
    /// representable range.
    pub fn settle_add(&mut self, amount: Decimal) -> (r: Result<(), BalanceError>)
        requires
            old(self).wf(),
            amount.wf(),
        ensures
            final(self).currency_id == old(self).currency_id,
            final(self).wf(),
            match r {
                Ok(()) => {
                    &&& old(self).total.units() + amount.units() < UNITS_BOUND as int
                    &&& final(self).total.units() == old(self).total.units() + amount.units()
                    &&& final(self).available.units() == old(self).available.units()
                        + amount.units()
                    &&& final(self).frozen == old(self).frozen
                },
                Err(e) => {
                    &&& *final(self) == *old(self)
                    &&& old(self).total.units() + amount.units() >= UNITS_BOUND as int
                    &&& e is InvalidAmount
                },
            },
    {
        proof {
            amount.lemma_units_bounds_mantissa_pub();
            old(self).frozen.lemma_units_bounds_mantissa_pub();
            old(self).available.lemma_units_bounds_mantissa_pub();
        }
        match self.total.checked_add(&amount) {
            Some(t) => {
                let a = match self.available.checked_add(&amount) {
                    Some(a) => a,
                    None => {
                        proof {
                            assert(false);
                        }
                        Decimal::zero()
                    },
                };
                self.total = t;
                self.available = a;
                Ok(())
            },
            None => Err(
                BalanceError::InvalidAmount(String::from_str("Amount out of range")),
            ),
        }
    }
}

/// Index of the first balance for the currency, or -1.
pub open spec fn bal_idx(s: Seq<AccountBalance>, cid: int) -> int
    decreases s.len(),
{
    if s.len() == 0 {
        -1
    } else if s[0].currency_id == cid {
        0
    } else {
        let r = bal_idx(s.drop_first(), cid);
        if r < 0 {
            -1
        } else {
            r + 1
        }
    }
}

/// What `bal_idx` finds.
pub proof fn lemma_bal_idx_spec(s: Seq<AccountBalance>, cid: int)
    ensures
        bal_idx(s, cid) == -1 ==> (forall|j: int|
            0 <= j < s.len() ==> (#[trigger] s[j]).currency_id != cid),
        bal_idx(s, cid) >= 0 ==> bal_idx(s, cid) < s.len() && s[bal_idx(s, cid)].currency_id
            == cid,
    decreases s.len(),
{
    if s.len() > 0 && s[0].currency_id != cid {
        lemma_bal_idx_spec(s.drop_first(), cid);
        assert(forall|j: int| 1 <= j < s.len() ==> s.drop_first()[j - 1] == #[trigger] s[j]);
    }
}

/// One account: its id and its per-currency balances.
#[derive(Debug, Clone)]
pub struct Account {
    pub id: i32,
    pub balances: Vec<AccountBalance>,
}

impl Account {
    /// Balances well-formed, one entry per currency.
    pub open spec fn wf(&self) -> bool {
        &&& forall|j: int| 0 <= j < self.balances@.len() ==> (#[trigger] self.balances@[j]).wf()
        &&& forall|j1: int, j2: int|
            0 <= j1 < j2 < self.balances@.len() ==> (#[trigger] self.balances@[j1]).currency_id
                != (#[trigger] self.balances@[j2]).currency_id
    }

    /// An account with no funds.
    pub fn new(id: i32) -> (r: Account)
        ensures
            r.wf(),
            r.id == id,
            r.balances@.len() == 0,
    {
        Account { id, balances: Vec::new() }
    }

    /// Index of the balance for the currency, creating an empty one on
    /// first reference.
    pub fn ensure_balance(&mut self, currency_id: i32) -> (idx: usize)
        requires
            old(self).wf(),
        ensures
            final(self).wf(),
            final(self).id == old(self).id,
            idx < final(self).balances@.len(),
            final(self).balances@[idx as int].currency_id == currency_id,
            bal_idx(final(self).balances@, currency_id as int) == idx,
            (bal_idx(old(self).balances@, currency_id as int) >= 0 ==> final(self).balances@
                == old(self).balances@ && idx == bal_idx(
                old(self).balances@,
                currency_id as int,
            )),
            (bal_idx(old(self).balances@, currency_id as int) == -1 ==> final(self).balances@
                == old(self).balances@.push(
                AccountBalance {
                    currency_id,
                    total: final(self).balances@[idx as int].total,
                    frozen: final(self).balances@[idx as int].frozen,
                    available: final(self).balances@[idx as int].available,
                },
            ) && final(self).balances@[idx as int].total.units() == 0
                && final(self).balances@[idx as int].frozen.units() == 0
                && final(self).balances@[idx as int].available.units() == 0),
    {
        let n = self.balances.len();
        let mut i: usize = 0;
        proof {
            assert(self.balances@.skip(0) =~= self.balances@);
        }
        while i < n
            invariant
                i <= n == self.balances@.len(),
                *self == *old(self),
                old(self).wf(),
                bal_idx(old(self).balances@, currency_id as int) == {
                    let r = bal_idx(old(self).balances@.skip(i as int), currency_id as int);
                    if r < 0 {
                        -1int
                    } else {
                        r + i
                    }
                },
            decreases n - i,
        {
            proof {
                assert(self.balances@.skip(i as int)[0] == self.balances@[i as int]);
                assert(self.balances@.skip(i as int).drop_first() =~= self.balances@.skip(
                    i as int + 1,
                ));
            }
            if self.balances[i].currency_id == currency_id {
                return i;
            }
            i = i + 1;
        }
        proof {
            assert(self.balances@.skip(n as int).len() == 0);
            lemma_bal_idx_spec(self.balances@, currency_id as int);
        }
        let nb = AccountBalance::new(currency_id);
        self.balances.push(nb);
        proof {
            lemma_bal_idx_push(old(self).balances@, nb, currency_id as int);
        }
        n
    }

    /// A copy of the balance for the currency, created empty (all three
    /// parts zero) on first reference; entries for other currencies are
    /// untouched, and repeated calls address the same entry.
    pub fn get_balance(&mut self, currency_id: i32) -> (r: AccountBalance)
        requires
            old(self).wf(),
        ensures
            final(self).wf(),
            final(self).id == old(self).id,
            r.wf(),
            r.currency_id == currency_id,
            r == final(self).balances@[bal_idx(final(self).balances@, currency_id as int)],
            bal_idx(final(self).balances@, currency_id as int) >= 0,
            (bal_idx(old(self).balances@, currency_id as int) >= 0 ==> final(self).balances@
                == old(self).balances@ && r == old(self).balances@[bal_idx(
                old(self).balances@,
                currency_id as int,
            )]),
            (bal_idx(old(self).balances@, currency_id as int) == -1 ==> final(self).balances@
                == old(self).balances@.push(r) && r.total.units() == 0 && r.frozen.units() == 0
                && r.available.units() == 0),
            forall|c: int|
                #[trigger] account_units(final(self).balances@, c) == account_units(
                    old(self).balances@,
                    c,
                ),
    {
        let idx = self.ensure_balance(currency_id);
        proof {
            if bal_idx(old(self).balances@, currency_id as int) == -1 {
                lemma_account_units_push_zero(
                    old(self).balances@,
                    self.balances@[idx as int],
                );
                assert(self.balances@ == old(self).balances@.push(self.balances@[idx as int]));
            }
        }
        self.balances[idx]
    }
}

/// Appending a balance for a fresh currency makes it the one `bal_idx`
/// finds.
pub proof fn lemma_bal_idx_push(s: Seq<AccountBalance>, b: AccountBalance, cid: int)
    requires
        forall|j: int| 0 <= j < s.len() ==> (#[trigger] s[j]).currency_id != cid,
        b.currency_id == cid,
    ensures
        bal_idx(s.push(b), cid) == s.len(),
    decreases s.len(),
{
    if s.len() == 0 {
        assert(s.push(b)[0] == b);
    } else {
        assert(s.push(b)[0] == s[0]);
        assert(s.push(b).drop_first() =~= s.drop_first().push(b));
        assert(forall|j: int| 1 <= j < s.len() ==> s.drop_first()[j - 1] == #[trigger] s[j]);
        lemma_bal_idx_push(s.drop_first(), b, cid);
    }
}

/// Whether the refund of a bid order's collateral is computable exactly:
/// the product of the limit price and the remaining quantity (taken at its
/// minimal scale) stays within the representation.
pub open spec fn bid_refund_fits(price: Decimal, quantity: Decimal, filled: Decimal) -> bool {
    let s = if quantity.scale >= filled.scale {
        quantity.scale
    } else {
        filled.scale
    };
    let m = ((quantity.units() - filled.units()) / crate::decimal::ten_pow(
        (crate::decimal::MAX_SCALE - s) as nat,
    ) as int) as nat;
    let nm = crate::decimal::norm(m, s as nat);
    &&& price.scale + nm.1 <= crate::decimal::MAX_SCALE
    &&& price.units() * (quantity.units() - filled.units()) < UNITS_BOUND as int
        * crate::decimal::ten_pow(crate::decimal::MAX_SCALE as nat) as int
}

/// The sign and canonical-unit value a decimal numeral denotes, if any.
pub open spec fn parsed_amount(s: Seq<char>) -> Option<(bool, int)> {
    match crate::decimal::parse_chars(s) {
        Some(p) => Some(
            (
                p.0,
                (p.1 * crate::decimal::ten_pow(
                    (crate::decimal::MAX_SCALE - p.2) as nat,
                )) as int,
            ),
        ),
        None => None,
    }
}

/// Canonical-unit value of a parsed decimal triple.
pub open spec fn units_of(p: (bool, nat, nat)) -> int {
    (p.1 * crate::decimal::ten_pow((crate::decimal::MAX_SCALE - p.2) as nat)) as int
}

/// The collateral a new order must freeze, in canonical units: quote at
/// `price * quantity` for a bid (side 0), base at `quantity` for an ask.
/// `None` when a needed text is malformed or negative, or the bid product
/// is not representable.
pub open spec fn collateral_spec(price: Seq<char>, quantity: Seq<char>, side: i32) -> Option<int> {
    match crate::decimal::parse_chars(quantity) {
        Some(q) => {
            if q.0 {
                None
            } else if side == 0 {
                match crate::decimal::parse_chars(price) {
                    Some(p) => {
                        if p.0 {
                            None
                        } else if product_representable(p, q) {
                            Some(product_units(units_of(p), units_of(q)))
                        } else {
                            None
                        }
                    },
                    None => None,
                }
            } else {
                Some(units_of(q))
            }
        },
        None => None,
    }
}

/// The exact product of two amounts given in canonical units (only used
/// where the product is representable, i.e. divisible).
pub open spec fn product_units(a: int, b: int) -> int {
    (a * b) / (crate::decimal::ten_pow(crate::decimal::MAX_SCALE as nat) as int)
}

/// Whether the exact product of two parsed decimals is representable: the
/// scales fit together and the value stays in range.
pub open spec fn product_representable(p: (bool, nat, nat), q: (bool, nat, nat)) -> bool {
    &&& p.2 + q.2 <= crate::decimal::MAX_SCALE
    &&& (p.1 * crate::decimal::ten_pow((crate::decimal::MAX_SCALE - p.2) as nat)) as int * ((q.1
        * crate::decimal::ten_pow((crate::decimal::MAX_SCALE - q.2) as nat)) as int)
        < UNITS_BOUND as int * crate::decimal::ten_pow(crate::decimal::MAX_SCALE as nat) as int
}

/// A successful multiplication yields exactly the product of the unit
/// values, rescaled.
pub proof fn lemma_product_units_exact(a: Decimal, b: Decimal, d: Decimal)
    requires
        d.units() * crate::decimal::ten_pow(crate::decimal::MAX_SCALE as nat) == a.units()
            * b.units(),
        d.units() >= 0,
    ensures
        d.units() == product_units(a.units(), b.units()),
{
    let k = crate::decimal::ten_pow(crate::decimal::MAX_SCALE as nat) as int;
    crate::decimal::lemma_ten_pow_pos(crate::decimal::MAX_SCALE as nat);
    vstd::arithmetic::div_mod::lemma_div_by_multiple(d.units(), k);
}

/// What settling one side of a trade does to the account's stored
/// balances: credit `add` of `add_cid` to total and available, then take
/// `min(ded, frozen)` of `ded_cid` out of frozen and total; nothing else
/// moves.
pub open spec fn settled_side(
    s0: Seq<Account>,
    s1: Seq<Account>,
    aid: int,
    ded_cid: int,
    ded: int,
    add_cid: int,
    add: int,
) -> bool {
    if add_cid != ded_cid {
        let ba = stored_units(s0, aid, add_cid);
        let bd = stored_units(s0, aid, ded_cid);
        let d = if ded <= bd.1 {
            ded
        } else {
            bd.1
        };
        &&& stored_units(s1, aid, add_cid) == (ba.0 + add, ba.1, ba.2 + add)
        &&& stored_units(s1, aid, ded_cid) == (bd.0 - d, bd.1 - d, bd.2)
        &&& frame_except2(s0, s1, aid, add_cid, ded_cid)
    } else {
        let b = stored_units(s0, aid, add_cid);
        let d = if ded <= b.1 {
            ded
        } else {
            b.1
        };
        &&& stored_units(s1, aid, add_cid) == (b.0 + add - d, b.1 - d, b.2 + add)
        &&& frame_except(s0, s1, aid, add_cid)
    }
}

/// One settlement step: applied when this shard owns the side, a no-op
/// otherwise.
pub open spec fn step_settled(
    s0: Seq<Account>,
    s1: Seq<Account>,
    owned: bool,
    aid: int,
    ded_cid: int,
    ded: int,
    add_cid: int,
    add: int,
) -> bool {
    if owned {
        settled_side(s0, s1, aid, ded_cid, ded, add_cid, add)
    } else {
        s1 == s0
    }
}

/// A settlement step followed by a step that stores nothing new is still
/// the same settlement step.
pub proof fn lemma_settled_then_frame(
    s0: Seq<Account>,
    s1: Seq<Account>,
    s2: Seq<Account>,
    aid: int,
    ded_cid: int,
    ded: int,
    add_cid: int,
    add: int,
)
    requires
        settled_side(s0, s1, aid, ded_cid, ded, add_cid, add),
        frame_all(s1, s2),
    ensures
        settled_side(s0, s2, aid, ded_cid, ded, add_cid, add),
{
    if add_cid != ded_cid {
        assert(stored_units(s2, aid, add_cid) == stored_units(s1, aid, add_cid));
        assert(stored_units(s2, aid, ded_cid) == stored_units(s1, aid, ded_cid));
        assert forall|a2: int, c: int|
            a2 != aid || (c != add_cid && c != ded_cid) implies #[trigger] stored_units(s2, a2, c)
            == stored_units(s0, a2, c) by {
            assert(stored_units(s2, a2, c) == stored_units(s1, a2, c));
        }
    } else {
        assert(stored_units(s2, aid, add_cid) == stored_units(s1, aid, add_cid));
        assert forall|a2: int, c: int|
            a2 != aid || c != add_cid implies #[trigger] stored_units(s2, a2, c) == stored_units(
            s0,
            a2,
            c,
        ) by {
            assert(stored_units(s2, a2, c) == stored_units(s1, a2, c));
        }
    }
}

/// Replacing one account touches only that account's stored balances
/// (two-currency version).
pub proof fn lemma_stored_update_account2(
    s0: Seq<Account>,
    s1: Seq<Account>,
    ai: int,
    c1: int,
    c2: int,
)
    requires
        0 <= ai < s0.len(),
        acct_idx(s0, s0[ai].id as int) == ai,
        s1.len() == s0.len(),
        forall|j: int| 0 <= j < s0.len() && j != ai ==> s1[j] == s0[j],
        s1[ai].id == s0[ai].id,
        forall|c: int|
            c != c1 && c != c2 ==> #[trigger] account_units(s1[ai].balances@, c) == account_units(
                s0[ai].balances@,
                c,
            ),
    ensures
        frame_except2(s0, s1, s0[ai].id as int, c1, c2),
        stored_units(s1, s0[ai].id as int, c1) == account_units(s1[ai].balances@, c1),
        stored_units(s1, s0[ai].id as int, c2) == account_units(s1[ai].balances@, c2),
        stored_units(s0, s0[ai].id as int, c1) == account_units(s0[ai].balances@, c1),
        stored_units(s0, s0[ai].id as int, c2) == account_units(s0[ai].balances@, c2),
{
    let aid = s0[ai].id as int;
    assert(forall|j: int| 0 <= j < s0.len() ==> (#[trigger] s1[j]).id == s0[j].id);
    assert forall|a2: int, c: int|
        a2 != aid || (c != c1 && c != c2) implies #[trigger] stored_units(s1, a2, c)
        == stored_units(s0, a2, c) by {
        lemma_acct_idx_same(s0, s1, a2);
        let i = acct_idx(s0, a2);
        if i >= 0 {
            lemma_acct_idx_spec(s0, a2);
            if a2 == aid {
                assert(i == ai);
            } else {
                assert(i != ai) by {
                    if i == ai {
                        assert(s0[i].id == a2);
                    }
                }
                assert(s1[i] == s0[i]);
            }
        }
    }
    lemma_acct_idx_same(s0, s1, aid);
}

/// Index of the first account with the given id, or -1.
pub open spec fn acct_idx(s: Seq<Account>, id: int) -> int
    decreases s.len(),
{
    if s.len() == 0 {
        -1
    } else if s[0].id == id {
        0
    } else {
        let r = acct_idx(s.drop_first(), id);
        if r < 0 {
            -1
        } else {
            r + 1
        }
    }
}

/// What `acct_idx` finds.
pub proof fn lemma_acct_idx_spec(s: Seq<Account>, id: int)
    ensures
        acct_idx(s, id) == -1 ==> (forall|j: int| 0 <= j < s.len() ==> (#[trigger] s[j]).id != id),
        acct_idx(s, id) >= 0 ==> acct_idx(s, id) < s.len() && s[acct_idx(s, id)].id == id,
    decreases s.len(),
{
    if s.len() > 0 && s[0].id != id {
        lemma_acct_idx_spec(s.drop_first(), id);
        assert(forall|j: int| 1 <= j < s.len() ==> s.drop_first()[j - 1] == #[trigger] s[j]);
    }
}

/// Appending an account with a fresh id makes it the one `acct_idx` finds.
pub proof fn lemma_acct_idx_push(s: Seq<Account>, a: Account, id: int)
    requires
        forall|j: int| 0 <= j < s.len() ==> (#[trigger] s[j]).id != id,
        a.id == id,
    ensures
        acct_idx(s.push(a), id) == s.len(),
    decreases s.len(),
{
    if s.len() == 0 {
        assert(s.push(a)[0] == a);
    } else {
        assert(s.push(a)[0] == s[0]);
        assert(s.push(a).drop_first() =~= s.drop_first().push(a));
        assert(forall|j: int| 1 <= j < s.len() ==> s.drop_first()[j - 1] == #[trigger] s[j]);
        lemma_acct_idx_push(s.drop_first(), a, id);
    }
}

/// The stored balance triple of (account, currency), in canonical units;
/// zeros when the account or currency was never touched.
pub open spec fn stored_units(s: Seq<Account>, aid: int, cid: int) -> (int, int, int) {
    let ai = acct_idx(s, aid);
    if ai >= 0 {
        account_units(s[ai].balances@, cid)
    } else {
        (0, 0, 0)
    }
}

/// The balance triple one account stores for a currency; zeros if absent.
pub open spec fn account_units(bals: Seq<AccountBalance>, cid: int) -> (int, int, int) {
    let bi = bal_idx(bals, cid);
    if bi >= 0 {
        (bals[bi].total.units(), bals[bi].frozen.units(), bals[bi].available.units())
    } else {
        (0, 0, 0)
    }
}

/// No stored balance differs between the two states except possibly
/// (account `aid`, currency `cid`).
pub open spec fn frame_except(s0: Seq<Account>, s1: Seq<Account>, aid: int, cid: int) -> bool {
    forall|a: int, c: int|
        a != aid || c != cid ==> #[trigger] stored_units(s1, a, c) == stored_units(s0, a, c)
}

/// No stored balance differs except possibly account `aid`'s currencies
/// `c1` and `c2`.
pub open spec fn frame_except2(
    s0: Seq<Account>,
    s1: Seq<Account>,
    aid: int,
    c1: int,
    c2: int,
) -> bool {
    forall|a: int, c: int|
        a != aid || (c != c1 && c != c2) ==> #[trigger] stored_units(s1, a, c) == stored_units(
            s0,
            a,
            c,
        )
}

/// No stored balance differs at all (lazily created zero entries aside).
pub open spec fn frame_all(s0: Seq<Account>, s1: Seq<Account>) -> bool {
    forall|a: int, c: int| #[trigger] stored_units(s1, a, c) == stored_units(s0, a, c)
}

/// Whether operation `op` can be applied to the triple `b0` with amount `a`.
pub open spec fn op_feasible(op: u8, b0: (int, int, int), a: int) -> bool {
    a > 0 && if op == 0 {
        b0.0 + a < UNITS_BOUND as int
    } else if op == 1 || op == 2 {
        b0.2 >= a
    } else {
        b0.1 >= a
    }
}

/// Appending an account with a new id changes no stored balance.
pub proof fn lemma_acct_idx_push_other(s: Seq<Account>, a: Account, id: int)
    requires
        a.id != id,
    ensures
        acct_idx(s.push(a), id) == acct_idx(s, id),
    decreases s.len(),
{
    if s.len() == 0 {
        assert(s.push(a)[0] == a);
        assert(s.push(a).drop_first() =~= Seq::<Account>::empty());
        assert(acct_idx(Seq::<Account>::empty(), id) == -1);
        assert(acct_idx(s.push(a), id) == -1);
    } else {
        assert(s.push(a)[0] == s[0]);
        assert(s.push(a).drop_first() =~= s.drop_first().push(a));
        lemma_acct_idx_push_other(s.drop_first(), a, id);
        assert(acct_idx(s.push(a).drop_first(), id) == acct_idx(s.drop_first(), id));
    }
}

/// Appending a balance with a new currency leaves other lookups alone.
pub proof fn lemma_bal_idx_push_other(s: Seq<AccountBalance>, b: AccountBalance, cid: int)
    requires
        b.currency_id != cid,
    ensures
        bal_idx(s.push(b), cid) == bal_idx(s, cid),
    decreases s.len(),
{
    if s.len() == 0 {
        assert(s.push(b)[0] == b);
        assert(s.push(b).drop_first() =~= Seq::<AccountBalance>::empty());
        assert(bal_idx(Seq::<AccountBalance>::empty(), cid) == -1);
        assert(bal_idx(s.push(b), cid) == -1);
    } else {
        assert(s.push(b)[0] == s[0]);
        assert(s.push(b).drop_first() =~= s.drop_first().push(b));
        lemma_bal_idx_push_other(s.drop_first(), b, cid);
        assert(bal_idx(s.push(b).drop_first(), cid) == bal_idx(s.drop_first(), cid));
    }
}

/// Lazily creating an empty account stores nothing new.
pub proof fn lemma_stored_push_account(s: Seq<Account>, a: Account)
    requires
        acct_idx(s, a.id as int) == -1,
        a.balances@.len() == 0,
    ensures
        frame_all(s, s.push(a)),
{
    let s1 = s.push(a);
    assert forall|a2: int, c: int| #[trigger] stored_units(s1, a2, c) == stored_units(
        s,
        a2,
        c,
    ) by {
        if a2 == a.id {
            lemma_acct_idx_spec(s, a2);
            lemma_acct_idx_push(s, a, a2);
            assert(s1[s.len() as int] == a);
            assert(bal_idx(a.balances@, c) == -1);
        } else {
            lemma_acct_idx_push_other(s, a, a2);
            let ai = acct_idx(s, a2);
            if ai >= 0 {
                lemma_acct_idx_spec(s, a2);
                assert(s1[ai] == s[ai]);
            }
        }
    }
}

/// Lazily creating an empty balance stores nothing new.
pub proof fn lemma_account_units_push_zero(bals: Seq<AccountBalance>, b: AccountBalance)
    requires
        bal_idx(bals, b.currency_id as int) == -1,
        b.total.units() == 0,
        b.frozen.units() == 0,
        b.available.units() == 0,
    ensures
        forall|c: int| #[trigger] account_units(bals.push(b), c) == account_units(bals, c),
{
    let s1 = bals.push(b);
    assert forall|c: int| #[trigger] account_units(s1, c) == account_units(bals, c) by {
        if c == b.currency_id {
            lemma_bal_idx_spec(bals, c);
            lemma_bal_idx_push(bals, b, c);
            assert(s1[bals.len() as int] == b);
        } else {
            lemma_bal_idx_push_other(bals, b, c);
            let bi = bal_idx(bals, c);
            if bi >= 0 {
                lemma_bal_idx_spec(bals, c);
                assert(s1[bi] == bals[bi]);
            }
        }
    }
}

/// Replacing one balance entry touches only its currency.
pub proof fn lemma_account_units_set(
    bals0: Seq<AccountBalance>,
    bals1: Seq<AccountBalance>,
    bi: int,
    cid: int,
)
    requires
        0 <= bi < bals0.len(),
        bal_idx(bals0, cid) == bi,
        bals1.len() == bals0.len(),
        forall|j: int| 0 <= j < bals0.len() && j != bi ==> bals1[j] == bals0[j],
        bals1[bi].currency_id == bals0[bi].currency_id,
    ensures
        forall|c: int|
            c != cid ==> #[trigger] account_units(bals1, c) == account_units(bals0, c),
        account_units(bals1, cid) == (
            bals1[bi].total.units(),
            bals1[bi].frozen.units(),
            bals1[bi].available.units(),
        ),
{
    assert(forall|j: int|
        0 <= j < bals0.len() ==> (#[trigger] bals1[j]).currency_id == bals0[j].currency_id);
    lemma_bal_idx_spec(bals0, cid);
    assert forall|c: int|
        c != cid implies #[trigger] account_units(bals1, c) == account_units(bals0, c) by {
        lemma_bal_idx_same(bals0, bals1, c);
        let i = bal_idx(bals0, c);
        if i >= 0 {
            lemma_bal_idx_spec(bals0, c);
            lemma_bal_idx_spec(bals1, c);
            assert(bals1[i].currency_id == c);
            assert(i != bi);
        }
    }
    lemma_bal_idx_same(bals0, bals1, cid);
}

/// Replacing one account touches only that account's stored balances.
pub proof fn lemma_stored_update_account(s0: Seq<Account>, s1: Seq<Account>, ai: int, cid: int)
    requires
        0 <= ai < s0.len(),
        acct_idx(s0, s0[ai].id as int) == ai,
        s1.len() == s0.len(),
        forall|j: int| 0 <= j < s0.len() && j != ai ==> s1[j] == s0[j],
        s1[ai].id == s0[ai].id,
        forall|c: int|
            c != cid ==> #[trigger] account_units(s1[ai].balances@, c) == account_units(
                s0[ai].balances@,
                c,
            ),
    ensures
        frame_except(s0, s1, s0[ai].id as int, cid),
        stored_units(s1, s0[ai].id as int, cid) == account_units(s1[ai].balances@, cid),
{
    let aid = s0[ai].id as int;
    assert(forall|j: int| 0 <= j < s0.len() ==> (#[trigger] s1[j]).id == s0[j].id);
    assert forall|a2: int, c: int|
        a2 != aid || c != cid implies #[trigger] stored_units(s1, a2, c) == stored_units(
        s0,
        a2,
        c,
    ) by {
        lemma_acct_idx_same(s0, s1, a2);
        let i = acct_idx(s0, a2);
        if i >= 0 {
            lemma_acct_idx_spec(s0, a2);
            if a2 == aid {
                assert(i == ai);
            } else {
                assert(s1[i].id == a2 || i != ai) by {
                    if i == ai {
                        assert(s0[i].id == a2);
                    }
                }
                assert(i != ai);
                assert(s1[i] == s0[i]);
            }
        }
    }
    lemma_acct_idx_same(s0, s1, aid);
}

/// What each balance operation does to a triple: 0 deposits, 1 withdraws,
/// 2 freezes, 3 unfreezes.
pub open spec fn op_applied(op: u8, b0: (int, int, int), amount: int, b: AccountBalance) -> bool {
    if op == 0 {
        b.total.units() == b0.0 + amount && b.frozen.units() == b0.1 && b.available.units() == b0.2
            + amount
    } else if op == 1 {
        b.total.units() == b0.0 - amount && b.frozen.units() == b0.1 && b.available.units() == b0.2
            - amount
    } else if op == 2 {
        b.total.units() == b0.0 && b.frozen.units() == b0.1 + amount && b.available.units() == b0.2
            - amount
    } else {
        b.total.units() == b0.0 && b.frozen.units() == b0.1 - amount && b.available.units() == b0.2
            + amount
    }
}

/// Reply to a balance read: status code and the matching balances.
#[derive(Debug, Clone)]
pub struct GetAccountReply {
    pub code: u32,
    pub balances: Vec<AccountBalance>,
}

/// The balances of one sequencer shard's accounts.
#[derive(Debug)]
pub struct BalanceManager {
    pub accounts: Vec<Account>,
}

impl BalanceManager {
    /// Accounts well-formed with distinct ids.
    pub open spec fn wf(&self) -> bool {
        &&& forall|j: int| 0 <= j < self.accounts@.len() ==> (#[trigger] self.accounts@[j]).wf()
        &&& forall|j1: int, j2: int|
            0 <= j1 < j2 < self.accounts@.len() ==> (#[trigger] self.accounts@[j1]).id != (
            #[trigger] self.accounts@[j2]).id
    }

    /// A manager with no accounts.
    pub fn new() -> (r: BalanceManager)
        ensures
            r.wf(),
            r.accounts@.len() == 0,
    {
        BalanceManager { accounts: Vec::new() }
    }

    /// Index of the account, creating an empty one on first reference.
    pub fn ensure_account(&mut self, account_id: i32) -> (idx: usize)
        requires
            old(self).wf(),
        ensures
            final(self).wf(),
            idx < final(self).accounts@.len(),
            final(self).accounts@[idx as int].id == account_id,
            acct_idx(final(self).accounts@, account_id as int) == idx,
            (acct_idx(old(self).accounts@, account_id as int) >= 0 ==> final(self).accounts@
                == old(self).accounts@ && idx == acct_idx(
                old(self).accounts@,
                account_id as int,
            )),
            (acct_idx(old(self).accounts@, account_id as int) == -1 ==> final(self).accounts@
                == old(self).accounts@.push(final(self).accounts@[idx as int])
                && idx == old(self).accounts@.len()
                && final(self).accounts@[idx as int].balances@.len() == 0),
    {
        let n = self.accounts.len();
        let mut i: usize = 0;
        proof {
            assert(self.accounts@.skip(0) =~= self.accounts@);
        }
        while i < n
            invariant
                i <= n == self.accounts@.len(),
                *self == *old(self),
                old(self).wf(),
                acct_idx(old(self).accounts@, account_id as int) == {
                    let r = acct_idx(old(self).accounts@.skip(i as int), account_id as int);
                    if r < 0 {
                        -1int
                    } else {
                        r + i
                    }
                },
            decreases n - i,
        {
            proof {
                assert(self.accounts@.skip(i as int)[0] == self.accounts@[i as int]);
                assert(self.accounts@.skip(i as int).drop_first() =~= self.accounts@.skip(
                    i as int + 1,
                ));
            }
            if self.accounts[i].id == account_id {
                return i;
            }
            i = i + 1;
        }
        proof {
            assert(self.accounts@.skip(n as int).len() == 0);
            lemma_acct_idx_spec(self.accounts@, account_id as int);
        }
        let na = Account::new(account_id);
        self.accounts.push(na);
        proof {
            lemma_acct_idx_push(old(self).accounts@, na, account_id as int);
        }
        n
    }

    /// Read an account's balances: 404 with nothing when the account is
    /// unknown, else code 0 and either the one requested currency's balance
    /// (empty if that currency was never touched) or all of them.
    pub fn handle_get_account(&self, account_id: i32, currency_id: Option<i32>) -> (r:
        GetAccountReply)
        requires
            self.wf(),
        ensures
            ({
                let ai = acct_idx(self.accounts@, account_id as int);
                &&& (ai == -1 ==> r.code == 404 && r.balances@.len() == 0)
                &&& (ai >= 0 ==> r.code == 0 && (match currency_id {
                    Some(cid) => {
                        let bi = bal_idx(self.accounts@[ai].balances@, cid as int);
                        &&& (bi >= 0 ==> r.balances@ =~= seq![
                            self.accounts@[ai].balances@[bi],
                        ])
                        &&& (bi == -1 ==> r.balances@.len() == 0)
                    },
                    None => r.balances@ == self.accounts@[ai].balances@,
                }))
            }),
    {
        let n = self.accounts.len();
        let mut i: usize = 0;
        proof {
            assert(self.accounts@.skip(0) =~= self.accounts@);
        }
        while i < n
            invariant
                i <= n == self.accounts@.len(),
                self.wf(),
                acct_idx(self.accounts@, account_id as int) == {
                    let r = acct_idx(self.accounts@.skip(i as int), account_id as int);
                    if r < 0 {
                        -1int
                    } else {
                        r + i
                    }
                },
            decreases n - i,
        {
            proof {
                assert(self.accounts@.skip(i as int)[0] == self.accounts@[i as int]);
                assert(self.accounts@.skip(i as int).drop_first() =~= self.accounts@.skip(
                    i as int + 1,
                ));
            }
            if self.accounts[i].id == account_id {
                proof {
                    assert(acct_idx(self.accounts@.skip(i as int), account_id as int) == 0);
                }
                let acct = &self.accounts[i];
                match currency_id {
                    Some(cid) => {
                        let m = acct.balances.len();
                        let mut k: usize = 0;
                        proof {
                            assert(acct.balances@.skip(0) =~= acct.balances@);
                        }
                        while k < m
                            invariant
                                k <= m == acct.balances@.len(),
                                i < self.accounts@.len(),
                                *acct == self.accounts@[i as int],
                                acct_idx(self.accounts@, account_id as int) == i as int,
                                currency_id == Some(cid),
                                bal_idx(acct.balances@, cid as int) == {
                                    let r = bal_idx(acct.balances@.skip(k as int), cid as int);
                                    if r < 0 {
                                        -1int
                                    } else {
                                        r + k
                                    }
                                },
                            decreases m - k,
                        {
                            proof {
                                assert(acct.balances@.skip(k as int)[0] == acct.balances@[
                                    k as int
                                ]);
                                assert(acct.balances@.skip(k as int).drop_first()
                                    =~= acct.balances@.skip(k as int + 1));
                            }
                            if acct.balances[k].currency_id == cid {
                                proof {
                                    assert(acct.balances@.skip(k as int)[0] == acct.balances@[
                                        k as int
                                    ]);
                                    assert(bal_idx(acct.balances@.skip(k as int), cid as int)
                                        == 0);
                                }
                                let mut v: Vec<AccountBalance> = Vec::new();
                                v.push(acct.balances[k]);
                                proof {
                                    assert(acct_idx(self.accounts@, account_id as int)
                                        == i as int);
                                    assert(self.accounts@[i as int] == *acct);
                                    assert(bal_idx(self.accounts@[i as int].balances@, cid as int)
                                        == k as int);
                                    assert(v@ =~= seq![self.accounts@[i as int].balances@[
                                        k as int
                                    ]]);
                                }
                                return GetAccountReply { code: 0, balances: v };
                            }
                            k = k + 1;
                        }
                        proof {
                            assert(acct.balances@.skip(m as int).len() == 0);
                        }
                        return GetAccountReply { code: 0, balances: Vec::new() };
                    },
                    None => {
                        let m = acct.balances.len();
                        let mut v: Vec<AccountBalance> = Vec::new();
                        let mut k: usize = 0;
                        while k < m
                            invariant
                                k <= m == acct.balances@.len(),
                                v@ =~= acct.balances@.take(k as int),
                            decreases m - k,
                        {
                            v.push(acct.balances[k]);
                            k = k + 1;
                        }
                        proof {
                            assert(acct.balances@.take(m as int) =~= acct.balances@);
                        }
                        return GetAccountReply { code: 0, balances: v };
                    },
                }
            }
            i = i + 1;
        }
        proof {
            assert(self.accounts@.skip(n as int).len() == 0);
        }
        GetAccountReply { code: 404, balances: Vec::new() }
    }

    /// Apply one balance operation to (account, currency), creating both on
    /// first reference; `op` selects increase, decrease, freeze or unfreeze.
    fn apply_op(&mut self, account_id: i32, currency_id: i32, amount: Decimal, op: u8) -> (r:
        Result<AccountBalance, BalanceError>)
        requires
            old(self).wf(),
            amount.wf(),
            op < 4,
        ensures
            final(self).wf(),
            ({
                let ai = acct_idx(final(self).accounts@, account_id as int);
                let bi = bal_idx(final(self).accounts@[ai].balances@, currency_id as int);
                let b0 = stored_units(old(self).accounts@, account_id as int, currency_id as int);
                let a = amount.units();
                &&& ai >= 0
                &&& (forall|j: int|
                    0 <= j < old(self).accounts@.len() && j != acct_idx(
                        old(self).accounts@,
                        account_id as int,
                    ) ==> final(self).accounts@[j] == old(self).accounts@[j])
                &&& frame_except(
                    old(self).accounts@,
                    final(self).accounts@,
                    account_id as int,
                    currency_id as int,
                )
                &&& (r is Ok <==> op_feasible(op, b0, a))
                &&& (match r {
                    Ok(b) => {
                        &&& bi >= 0
                        &&& b == final(self).accounts@[ai].balances@[bi]
                        &&& b.wf()
                        &&& b.currency_id == currency_id
                        &&& op_applied(op, b0, a, b)
                        &&& stored_units(
                            final(self).accounts@,
                            account_id as int,
                            currency_id as int,
                        ) == (b.total.units(), b.frozen.units(), b.available.units())
                    },
                    Err(e) => {
                        &&& frame_all(old(self).accounts@, final(self).accounts@)
                        &&& (e is InvalidAmount <==> (a == 0 || (op == 0 && b0.0 + a
                            >= UNITS_BOUND as int)))
                        &&& (e is InsufficientBalance <==> (a > 0 && ((op == 1 || op == 2) && b0.2
                            < a || op == 3 && b0.1 < a)))
                    },
                })
            }),
    {
        let ai = self.ensure_account(account_id);
        let ghost s_mid = *self;
        let mut acct = self.accounts.remove(ai);
        let ghost acct0 = acct;
        let bi = acct.ensure_balance(currency_id);
        let mut bal = acct.balances[bi];
        let res = if op == 0 {
            bal.increase(amount)
        } else if op == 1 {
            bal.decrease(amount)
        } else if op == 2 {
            bal.freeze(amount)
        } else {
            bal.unfreeze(amount)
        };
        let ghost acct_mid = acct;
        acct.balances.set(bi, bal);
        proof {
            lemma_bal_idx_same_ids2(acct_mid, acct, bi as int);
            lemma_bal_idx_same(acct_mid.balances@, acct.balances@, currency_id as int);
        }
        self.accounts.insert(ai, acct);
        proof {
            assert(self.accounts@ =~= s_mid.accounts@.update(ai as int, acct));
            lemma_acct_set_wf(&s_mid, self, ai as int);
            lemma_acct_idx_stable(s_mid.accounts@, self.accounts@, ai as int);
            assert(self.accounts@[ai as int] == acct);
            // connect the old stored triple to the balance the operation saw
            let aid = account_id as int;
            let cid = currency_id as int;
            let ai0 = acct_idx(old(self).accounts@, aid);
            let b0 = stored_units(old(self).accounts@, aid, cid);
            let bal0 = acct_mid.balances@[bi as int];
            if ai0 >= 0 {
                assert(acct_idx(s_mid.accounts@, aid) == ai as int);
                assert(s_mid.accounts@ == old(self).accounts@);
                let bi0 = bal_idx(old(self).accounts@[ai0].balances@, cid);
                assert(acct0 == old(self).accounts@[ai0]);
                if bi0 >= 0 {
                    assert(acct_mid.balances@ == acct0.balances@);
                    assert(bi as int == bi0);
                } else {
                    assert(bal0.total.units() == 0 && bal0.frozen.units() == 0
                        && bal0.available.units() == 0);
                }
            } else {
                assert(acct0.balances@.len() == 0);
                assert(bal_idx(acct0.balances@, cid) == -1);
                assert(bal0.total.units() == 0 && bal0.frozen.units() == 0
                    && bal0.available.units() == 0);
            }
            assert(bal0.total.units() == b0.0 && bal0.frozen.units() == b0.1
                && bal0.available.units() == b0.2);
            // frame for the other accounts
            assert forall|j: int|
                0 <= j < old(self).accounts@.len() && j != ai0 implies self.accounts@[j] == old(
                self,
            ).accounts@[j] by {
                if ai0 >= 0 {
                    assert(s_mid.accounts@[j] == old(self).accounts@[j]);
                } else {
                    assert(s_mid.accounts@[j] == old(self).accounts@[j]);
                }
            }
            // no stored balance other than (account, currency) moves
            if ai0 == -1 {
                lemma_stored_push_account(old(self).accounts@, acct0);
            }
            assert(forall|c: int|
                c != cid ==> #[trigger] account_units(acct_mid.balances@, c) == account_units(
                    acct0.balances@,
                    c,
                )) by {
                if bal_idx(acct0.balances@, cid) == -1 {
                    lemma_account_units_push_zero(acct0.balances@, acct_mid.balances@[bi as int]);
                    assert(acct_mid.balances@ == acct0.balances@.push(
                        acct_mid.balances@[bi as int],
                    ));
                }
            }
            lemma_account_units_set(acct_mid.balances@, acct.balances@, bi as int, cid);
            lemma_stored_update_account(s_mid.accounts@, self.accounts@, ai as int, cid);
            assert(frame_except(old(self).accounts@, self.accounts@, aid, cid)) by {
                assert forall|a2: int, c: int|
                    a2 != aid || c != cid implies #[trigger] stored_units(self.accounts@, a2, c)
                    == stored_units(old(self).accounts@, a2, c) by {
                    assert(stored_units(self.accounts@, a2, c) == stored_units(
                        s_mid.accounts@,
                        a2,
                        c,
                    ));
                }
            }
            assert(stored_units(self.accounts@, aid, cid) == account_units(
                acct.balances@,
                cid,
            ));
            if res is Err {
                assert(bal == bal0);
                assert(stored_units(self.accounts@, aid, cid) == b0);
                assert(frame_all(old(self).accounts@, self.accounts@)) by {
                    assert forall|a2: int, c: int| #[trigger] stored_units(self.accounts@, a2, c)
                        == stored_units(old(self).accounts@, a2, c) by {
                        if a2 != aid || c != cid {
                        } else {
                            assert(stored_units(self.accounts@, aid, cid) == b0);
                        }
                    }
                }
            }
        }
        match res {
            Ok(()) => Ok(bal),
            Err(e) => Err(e),
        }
    }

    /// Deposit `amount_str` into (account, currency): succeeds if and only
    /// if the text denotes a positive amount and the total stays in range;
    /// then total and available grow by exactly that amount and no other
    /// stored balance moves.
    pub fn handle_increase(&mut self, account_id: i32, currency_id: i32, amount_str: &str) -> (r:
        Result<AccountBalance, BalanceError>)
        requires
            old(self).wf(),
        ensures
            final(self).wf(),
            ({
                let pa = parsed_amount(amount_str@);
                let b0 = stored_units(old(self).accounts@, account_id as int, currency_id as int);
                &&& (r is Ok <==> (pa matches Some(q) && !q.0 && op_feasible(0, b0, q.1)))
                &&& (match r {
                    Ok(b) => {
                        &&& b.wf()
                        &&& b.currency_id == currency_id
                        &&& op_applied(0, b0, pa->Some_0.1, b)
                        &&& stored_units(
                            final(self).accounts@,
                            account_id as int,
                            currency_id as int,
                        ) == (b.total.units(), b.frozen.units(), b.available.units())
                        &&& frame_except(
                            old(self).accounts@,
                            final(self).accounts@,
                            account_id as int,
                            currency_id as int,
                        )
                    },
                    Err(e) => {
                        &&& frame_all(old(self).accounts@, final(self).accounts@)
                        &&& e is InvalidAmount
                    },
                })
            }),
    {
        let amount = match Decimal::parse(amount_str) {
            Some(p) => {
                if p.0 {
                    return Err(
                        BalanceError::InvalidAmount(
                            String::from_str("Amount must be positive"),
                        ),
                    );
                }
                p.1
            },
            None => {
                return Err(
                    BalanceError::InvalidAmount(String::from_str("Invalid amount format")),
                );
            },
        };
        self.apply_op(account_id, currency_id, amount, 0)
    }

    /// Withdraw `amount_str` from (account, currency): succeeds if and only
    /// if the text denotes a positive amount within the available funds;
    /// then total and available shrink by exactly that amount and no other
    /// stored balance moves.
    pub fn handle_decrease(&mut self, account_id: i32, currency_id: i32, amount_str: &str) -> (r:
        Result<AccountBalance, BalanceError>)
        requires
            old(self).wf(),
        ensures
            final(self).wf(),
            ({
                let pa = parsed_amount(amount_str@);
                let b0 = stored_units(old(self).accounts@, account_id as int, currency_id as int);
                &&& (r is Ok <==> (pa matches Some(q) && !q.0 && op_feasible(1, b0, q.1)))
                &&& (match r {
                    Ok(b) => {
                        &&& b.wf()
                        &&& b.currency_id == currency_id
                        &&& op_applied(1, b0, pa->Some_0.1, b)
                        &&& stored_units(
                            final(self).accounts@,
                            account_id as int,
                            currency_id as int,
                        ) == (b.total.units(), b.frozen.units(), b.available.units())
                        &&& frame_except(
                            old(self).accounts@,
                            final(self).accounts@,
                            account_id as int,
                            currency_id as int,
                        )
                    },
                    Err(e) => {
                        &&& frame_all(old(self).accounts@, final(self).accounts@)
                        &&& (e is InsufficientBalance <==> (pa matches Some(q) && !q.0 && q.1 > 0
                            && b0.2 < q.1))
                        &&& (e is InvalidAmount <==> (pa is None || pa->Some_0.0 || pa->Some_0.1
                            == 0))
                    },
                })
            }),
    {
        let amount = match Decimal::parse(amount_str) {
            Some(p) => {
                if p.0 {
                    return Err(
                        BalanceError::InvalidAmount(
                            String::from_str("Amount must be positive"),
                        ),
                    );
                }
                p.1
            },
            None => {
                return Err(
                    BalanceError::InvalidAmount(String::from_str("Invalid amount format")),
                );
            },
        };
        self.apply_op(account_id, currency_id, amount, 1)
    }

    /// Reserve `amount` of (account, currency) as collateral: succeeds if
    /// and only if the amount is positive and within the available funds;
    /// then exactly that amount moves from available to frozen, total and
    /// every other stored balance unchanged.
    pub fn handle_freeze(&mut self, account_id: i32, currency_id: i32, amount: Decimal) -> (r:
        Result<(), BalanceError>)
        requires
            old(self).wf(),
            amount.wf(),
        ensures
            final(self).wf(),
            ({
                let b0 = stored_units(old(self).accounts@, account_id as int, currency_id as int);
                let a = amount.units();
                &&& (r is Ok <==> op_feasible(2, b0, a))
                &&& (match r {
                    Ok(()) => {
                        &&& stored_units(
                            final(self).accounts@,
                            account_id as int,
                            currency_id as int,
                        ) == (b0.0, b0.1 + a, b0.2 - a)
                        &&& frame_except(
                            old(self).accounts@,
                            final(self).accounts@,
                            account_id as int,
                            currency_id as int,
                        )
                    },
                    Err(e) => {
                        &&& frame_all(old(self).accounts@, final(self).accounts@)
                        &&& (e is InvalidAmount <==> a == 0)
                        &&& (e is InsufficientBalance <==> a > 0 && b0.2 < a)
                    },
                })
            }),
    {
        match self.apply_op(account_id, currency_id, amount, 2) {
            Ok(_) => Ok(()),
            Err(e) => Err(e),
        }
    }

    /// Pre-trade risk for a new order: resolve the symbol, compute the
    /// collateral (quote at `price * quantity` for a bid, base at `quantity`
    /// for an ask), and freeze it.  Returns the frozen currency and amount.
    pub fn handle_place_order(
        &mut self,
        cfg: &GlobalConfig,
        account_id: i32,
        symbol_id: i32,
        side: i32,
        price: &str,
        quantity: &str,
    ) -> (r: Result<(i32, Decimal), BalanceError>)
        requires
            old(self).wf(),
        ensures
            final(self).wf(),
            ({
                let symo = find_symbol(cfg.symbols@, symbol_id as int);
                let coll = collateral_spec(price@, quantity@, side);
                let fcid = if side == 0 {
                    symo->Some_0.quote
                } else {
                    symo->Some_0.base
                };
                let b0 = stored_units(old(self).accounts@, account_id as int, fcid as int);
                &&& (r is Ok <==> (symo is Some && (coll matches Some(a) && a > 0 && b0.2 >= a)))
                &&& (match r {
                    Ok(p) => {
                        &&& p.0 == fcid
                        &&& p.1.wf()
                        &&& p.1.units() == coll->Some_0
                        &&& stored_units(final(self).accounts@, account_id as int, p.0 as int) == (
                            b0.0,
                            b0.1 + p.1.units(),
                            b0.2 - p.1.units(),
                        )
                        &&& frame_except(
                            old(self).accounts@,
                            final(self).accounts@,
                            account_id as int,
                            p.0 as int,
                        )
                    },
                    Err(e) => {
                        &&& frame_all(old(self).accounts@, final(self).accounts@)
                        &&& (e is CurrencyNotFound <==> symo is None)
                        &&& (e is InvalidAmount <==> symo is Some && (coll is None || coll->Some_0
                            == 0))
                        &&& (e is InsufficientBalance <==> symo is Some && (coll matches Some(a)
                            && a > 0 && b0.2 < a))
                        &&& !(e is AccountNotFound)
                    },
                })
            }),
    {
        let sym = match get_symbol(cfg, symbol_id) {
            Some(s) => s,
            None => {
                return Err(BalanceError::CurrencyNotFound);
            },
        };
        let quantity_dec = match Decimal::parse(quantity) {
            Some(p) => {
                if p.0 {
                    return Err(
                        BalanceError::InvalidAmount(
                            String::from_str("Amount must be positive"),
                        ),
                    );
                }
                p.1
            },
            None => {
                return Err(
                    BalanceError::InvalidAmount(String::from_str("Invalid quantity format")),
                );
            },
        };
        let (freeze_currency_id, freeze_amount) = if side == 0 {
            // bid: freeze quote at price * quantity
            let price_dec = match Decimal::parse(price) {
                Some(p) => {
                    if p.0 {
                        return Err(
                            BalanceError::InvalidAmount(
                                String::from_str("Amount must be positive"),
                            ),
                        );
                    }
                    p.1
                },
                None => {
                    return Err(
                        BalanceError::InvalidAmount(String::from_str("Invalid price format")),
                    );
                },
            };
            let amt = match price_dec.checked_mul(&quantity_dec) {
                Some(a) => a,
                None => {
                    proof {
                        let p = crate::decimal::parse_chars(price@)->Some_0;
                        let q = crate::decimal::parse_chars(quantity@)->Some_0;
                        crate::decimal::lemma_ten_pow_pos(crate::decimal::MAX_SCALE as nat);
                        assert(!product_representable(p, q)) by {
                            assert(units_of(p) == price_dec.units());
                            assert(units_of(q) == quantity_dec.units());
                        }
                        assert(collateral_spec(price@, quantity@, side) is None);
                    }
                    return Err(
                        BalanceError::InvalidAmount(String::from_str("Amount out of range")),
                    );
                },
            };
            proof {
                amt.lemma_units_bounds_mantissa_pub();
                lemma_product_units_exact(price_dec, quantity_dec, amt);
                let p = crate::decimal::parse_chars(price@)->Some_0;
                let q = crate::decimal::parse_chars(quantity@)->Some_0;
                assert(units_of(p) == price_dec.units());
                assert(units_of(q) == quantity_dec.units());
                assert(product_representable(p, q)) by {
                    crate::decimal::lemma_ten_pow_pos(crate::decimal::MAX_SCALE as nat);
                    vstd::arithmetic::mul::lemma_mul_strict_inequality(
                        amt.units(),
                        UNITS_BOUND as int,
                        crate::decimal::ten_pow(crate::decimal::MAX_SCALE as nat) as int,
                    );
                    vstd::arithmetic::mul::lemma_mul_is_commutative(
                        amt.units(),
                        crate::decimal::ten_pow(crate::decimal::MAX_SCALE as nat) as int,
                    );
                    vstd::arithmetic::mul::lemma_mul_is_commutative(
                        UNITS_BOUND as int,
                        crate::decimal::ten_pow(crate::decimal::MAX_SCALE as nat) as int,
                    );
                }
                assert(collateral_spec(price@, quantity@, side) == Some(amt.units()));
            }
            (sym.quote, amt)
        } else {
            // ask: freeze base at quantity
            (sym.base, quantity_dec)
        };
        proof {
            if side != 0 {
                let q = crate::decimal::parse_chars(quantity@)->Some_0;
                assert(units_of(q) == freeze_amount.units());
                assert(collateral_spec(price@, quantity@, side) == Some(freeze_amount.units()));
            }
            assert(collateral_spec(price@, quantity@, side) == Some(freeze_amount.units()));
        }
        if freeze_amount.is_zero() {
            return Err(
                BalanceError::InvalidAmount(String::from_str("Amount must be positive")),
            );
        }
        match self.apply_op(account_id, freeze_currency_id, freeze_amount, 2) {
            Ok(_) => Ok((freeze_currency_id, freeze_amount)),
            Err(e) => Err(e),
        }
    }

    /// Whether crediting `amount` to (account, currency) keeps the total in
    /// range (reads only; used to make settlement all-or-nothing).
    fn credit_fits(&self, account_id: i32, currency_id: i32, amount: Decimal) -> (r: bool)
        requires
            self.wf(),
            amount.wf(),
        ensures
            r == (stored_units(self.accounts@, account_id as int, currency_id as int).0
                + amount.units() < UNITS_BOUND as int),
    {
        let n = self.accounts.len();
        let mut i: usize = 0;
        proof {
            assert(self.accounts@.skip(0) =~= self.accounts@);
        }
        while i < n
            invariant
                i <= n == self.accounts@.len(),
                self.wf(),
                amount.wf(),
                acct_idx(self.accounts@, account_id as int) == {
                    let r = acct_idx(self.accounts@.skip(i as int), account_id as int);
                    if r < 0 {
                        -1int
                    } else {
                        r + i
                    }
                },
            decreases n - i,
        {
            proof {
                assert(self.accounts@.skip(i as int)[0] == self.accounts@[i as int]);
                assert(self.accounts@.skip(i as int).drop_first() =~= self.accounts@.skip(
                    i as int + 1,
                ));
            }
            if self.accounts[i].id == account_id {
                proof {
                    assert(acct_idx(self.accounts@.skip(i as int), account_id as int) == 0);
                }
                let acct = &self.accounts[i];
                let m = acct.balances.len();
                let mut k: usize = 0;
                proof {
                    assert(acct.balances@.skip(0) =~= acct.balances@);
                }
                while k < m
                    invariant
                        k <= m == acct.balances@.len(),
                        i < self.accounts@.len(),
                        *acct == self.accounts@[i as int],
                        acct_idx(self.accounts@, account_id as int) == i as int,
                        self.wf(),
                        amount.wf(),
                        bal_idx(acct.balances@, currency_id as int) == {
                            let r = bal_idx(acct.balances@.skip(k as int), currency_id as int);
                            if r < 0 {
                                -1int
                            } else {
                                r + k
                            }
                        },
                    decreases m - k,
                {
                    proof {
                        assert(acct.balances@.skip(k as int)[0] == acct.balances@[k as int]);
                        assert(acct.balances@.skip(k as int).drop_first() =~= acct.balances@.skip(
                            k as int + 1,
                        ));
                    }
                    if acct.balances[k].currency_id == currency_id {
                        proof {
                            assert(bal_idx(acct.balances@.skip(k as int), currency_id as int)
                                == 0);
                        }
                        return match acct.balances[k].total.checked_add(&amount) {
                            Some(_) => true,
                            None => false,
                        };
                    }
                    k = k + 1;
                }
                proof {
                    assert(acct.balances@.skip(m as int).len() == 0);
                    amount.lemma_units_bounds_mantissa_pub();
                }
                return true;
            }
            i = i + 1;
        }
        proof {
            assert(self.accounts@.skip(n as int).len() == 0);
            amount.lemma_units_bounds_mantissa_pub();
        }
        true
    }

    /// Apply the settlement of one trade for the sides this shard owns:
    /// the buyer pays frozen quote and receives base; the seller pays frozen
    /// base and receives quote.  Succeeds if and only if the symbol is known
    /// and sane (distinct base and quote), the notional `price * quantity`
    /// is representable, and each owned side's credit keeps that total in
    /// range; on any error, nothing changes: settlement is all-or-nothing.
    pub fn execute_single_trade(
        &mut self,
        cfg: &GlobalConfig,
        shard_id: usize,
        shard_count: usize,
        trade: &Trade,
    ) -> (r: Result<(), BalanceError>)
        requires
            old(self).wf(),
            trade.wf(),
            1 <= shard_count <= i32::MAX as usize,
        ensures
            final(self).wf(),
            ({
                let symo = find_symbol(cfg.symbols@, trade.symbol_id as int);
                let n = product_units(trade.price.units(), trade.quantity.units());
                let q = trade.quantity.units();
                let buy_owned = owner_shard(trade.buy_account_id as int, shard_count as int)
                    == shard_id as int;
                let sell_owned = owner_shard(trade.sell_account_id as int, shard_count as int)
                    == shard_id as int;
                let representable = trade.price.scale + trade.quantity.scale
                    <= crate::decimal::MAX_SCALE && trade.price.units() * trade.quantity.units()
                    < UNITS_BOUND as int * crate::decimal::ten_pow(
                    crate::decimal::MAX_SCALE as nat,
                ) as int;
                let ok_conditions = {
                    &&& symo is Some
                    &&& symo->Some_0.base != symo->Some_0.quote
                    &&& representable
                    &&& (buy_owned ==> stored_units(
                        old(self).accounts@,
                        trade.buy_account_id as int,
                        symo->Some_0.base as int,
                    ).0 + q < UNITS_BOUND as int)
                    &&& (sell_owned ==> stored_units(
                        old(self).accounts@,
                        trade.sell_account_id as int,
                        symo->Some_0.quote as int,
                    ).0 + n < UNITS_BOUND as int)
                };
                &&& (r is Ok <==> ok_conditions)
                &&& (match r {
                    Ok(()) => {
                        &&& n * crate::decimal::ten_pow(crate::decimal::MAX_SCALE as nat)
                            == trade.price.units() * trade.quantity.units()
                        &&& exists|mid: Seq<Account>|
                            (#[trigger] step_settled(
                                old(self).accounts@,
                                mid,
                                buy_owned,
                                trade.buy_account_id as int,
                                symo->Some_0.quote as int,
                                n,
                                symo->Some_0.base as int,
                                q,
                            )) && step_settled(
                                mid,
                                final(self).accounts@,
                                sell_owned,
                                trade.sell_account_id as int,
                                symo->Some_0.base as int,
                                q,
                                symo->Some_0.quote as int,
                                n,
                            )
                    },
                    Err(e) => {
                        &&& frame_all(old(self).accounts@, final(self).accounts@)
                        &&& (e is CurrencyNotFound <==> symo is None)
                        &&& (e is InvalidAmount <==> symo is Some)
                    },
                })
            }),
    {
        let sym = match get_symbol(cfg, trade.symbol_id) {
            Some(s) => s,
            None => {
                return Err(BalanceError::CurrencyNotFound);
            },
        };
        if sym.base == sym.quote {
            // a pair pricing a currency in itself is malformed configuration
            return Err(
                BalanceError::InvalidAmount(String::from_str("Malformed symbol")),
            );
        }
        let quote_amount = match trade.price.checked_mul(&trade.quantity) {
            Some(a) => a,
            None => {
                return Err(
                    BalanceError::InvalidAmount(String::from_str("Amount out of range")),
                );
            },
        };
        proof {
            quote_amount.lemma_units_bounds_mantissa_pub();
            lemma_product_units_exact(trade.price, trade.quantity, quote_amount);
            crate::decimal::lemma_ten_pow_pos(crate::decimal::MAX_SCALE as nat);
            vstd::arithmetic::mul::lemma_mul_strict_inequality(
                quote_amount.units(),
                UNITS_BOUND as int,
                crate::decimal::ten_pow(crate::decimal::MAX_SCALE as nat) as int,
            );
            vstd::arithmetic::mul::lemma_mul_is_commutative(
                quote_amount.units(),
                crate::decimal::ten_pow(crate::decimal::MAX_SCALE as nat) as int,
            );
            vstd::arithmetic::mul::lemma_mul_is_commutative(
                UNITS_BOUND as int,
                crate::decimal::ten_pow(crate::decimal::MAX_SCALE as nat) as int,
            );
        }
        // check both credits before applying either: all-or-nothing
        let buy_shard = shard_index(trade.buy_account_id, shard_count);
        let sell_shard = shard_index(trade.sell_account_id, shard_count);
        if buy_shard == shard_id {
            if !self.credit_fits(trade.buy_account_id, sym.base, trade.quantity) {
                return Err(
                    BalanceError::InvalidAmount(String::from_str("Amount out of range")),
                );
            }
        }
        if sell_shard == shard_id {
            if !self.credit_fits(trade.sell_account_id, sym.quote, quote_amount) {
                return Err(
                    BalanceError::InvalidAmount(String::from_str("Amount out of range")),
                );
            }
        }
        if buy_shard == shard_id {
            match self.settle_side(trade.buy_account_id, sym.quote, quote_amount, sym.base,
                trade.quantity) {
                Ok(()) => {},
                Err(_) => {
                    proof {
                        assert(false);
                    }
                    return Err(
                        BalanceError::InvalidAmount(String::from_str("Amount out of range")),
                    );
                },
            }
        }
        let ghost mid_acc = self.accounts@;
        if sell_shard == shard_id {
            proof {
                // the buyer's step can only have lowered the seller's quote
                // total: the credit went to the base currency, which is a
                // different pair
                trade.quantity.lemma_units_bounds_mantissa_pub();
                if buy_shard == shard_id {
                    if trade.sell_account_id == trade.buy_account_id {
                        assert(stored_units(mid_acc, trade.sell_account_id as int,
                            sym.quote as int).0 <= stored_units(old(self).accounts@,
                            trade.sell_account_id as int, sym.quote as int).0);
                    } else {
                        assert(stored_units(mid_acc, trade.sell_account_id as int,
                            sym.quote as int) == stored_units(old(self).accounts@,
                            trade.sell_account_id as int, sym.quote as int));
                    }
                }
            }
            match self.settle_side(trade.sell_account_id, sym.base, trade.quantity, sym.quote,
                quote_amount) {
                Ok(()) => {},
                Err(_) => {
                    proof {
                        assert(false);
                    }
                    return Err(
                        BalanceError::InvalidAmount(String::from_str("Amount out of range")),
                    );
                },
            }
        }
        proof {
            let symo = find_symbol(cfg.symbols@, trade.symbol_id as int);
            let n = product_units(trade.price.units(), trade.quantity.units());
            let q = trade.quantity.units();
            let buy_owned = owner_shard(trade.buy_account_id as int, shard_count as int)
                == shard_id as int;
            let sell_owned = owner_shard(trade.sell_account_id as int, shard_count as int)
                == shard_id as int;
            assert(buy_owned == (buy_shard == shard_id));
            assert(sell_owned == (sell_shard == shard_id));
            assert(n == quote_amount.units());
            assert(symo->Some_0 == *sym);
            assert(step_settled(
                old(self).accounts@,
                mid_acc,
                buy_owned,
                trade.buy_account_id as int,
                symo->Some_0.quote as int,
                n,
                symo->Some_0.base as int,
                q,
            ));
            assert(step_settled(
                mid_acc,
                self.accounts@,
                sell_owned,
                trade.sell_account_id as int,
                symo->Some_0.base as int,
                q,
                symo->Some_0.quote as int,
                n,
            ));
        }
        Ok(())
    }

    /// One side of a settlement: deduct `deduct_amount` of `deduct_cid` from
    /// the account's frozen funds (clamped) and credit `add_amount` of
    /// `add_cid` to its available funds.
    fn settle_side(
        &mut self,
        account_id: i32,
        deduct_cid: i32,
        deduct_amount: Decimal,
        add_cid: i32,
        add_amount: Decimal,
    ) -> (r: Result<(), BalanceError>)
        requires
            old(self).wf(),
            deduct_amount.wf(),
            add_amount.wf(),
        ensures
            final(self).wf(),
            ({
                let ba0 = stored_units(old(self).accounts@, account_id as int, add_cid as int);
                &&& (r is Ok <==> ba0.0 + add_amount.units() < UNITS_BOUND as int)
                &&& (match r {
                    Ok(()) => settled_side(
                        old(self).accounts@,
                        final(self).accounts@,
                        account_id as int,
                        deduct_cid as int,
                        deduct_amount.units(),
                        add_cid as int,
                        add_amount.units(),
                    ),
                    Err(e) => frame_all(old(self).accounts@, final(self).accounts@) && e
                        is InvalidAmount,
                })
            }),
    {
        let ghost aid = account_id as int;
        let ghost ca = add_cid as int;
        let ghost cd = deduct_cid as int;
        let ai = self.ensure_account(account_id);
        let ghost s_mid = *self;
        let mut acct = self.accounts.remove(ai);
        let ghost acct0 = acct;
        proof {
            if acct_idx(old(self).accounts@, aid) == -1 {
                lemma_stored_push_account(old(self).accounts@, acct0);
                assert(bal_idx(acct0.balances@, ca) == -1);
                assert(bal_idx(acct0.balances@, cd) == -1);
            }
            // the old stored triples are this account's entries (or zeros)
            assert(stored_units(old(self).accounts@, aid, ca) == account_units(
                acct0.balances@,
                ca,
            ));
            assert(stored_units(old(self).accounts@, aid, cd) == account_units(
                acct0.balances@,
                cd,
            ));
        }
        // credit first so a failure changes nothing
        let bi_add = acct.ensure_balance(add_cid);
        let ghost acct_a = acct;
        proof {
            if bal_idx(acct0.balances@, ca) == -1 {
                lemma_account_units_push_zero(acct0.balances@, acct_a.balances@[bi_add as int]);
                assert(acct_a.balances@ == acct0.balances@.push(acct_a.balances@[bi_add as int]));
            }
            assert(forall|c: int|
                #[trigger] account_units(acct_a.balances@, c) == account_units(
                    acct0.balances@,
                    c,
                ));
            assert(account_units(acct_a.balances@, ca) == (
                acct_a.balances@[bi_add as int].total.units(),
                acct_a.balances@[bi_add as int].frozen.units(),
                acct_a.balances@[bi_add as int].available.units(),
            ));
        }
        let mut bal_add = acct.balances[bi_add];
        let credit = bal_add.settle_add(add_amount);
        let failed = credit.is_err();
        if !failed {
            let ghost acct_mid1 = acct;
            acct.balances.set(bi_add, bal_add);
            proof {
                lemma_bal_idx_same_ids2(acct_mid1, acct, bi_add as int);
                lemma_account_units_set(acct_mid1.balances@, acct.balances@, bi_add as int, ca);
            }
            let ghost acct_b = acct;
            let bi_ded = acct.ensure_balance(deduct_cid);
            let ghost acct_c = acct;
            proof {
                if bal_idx(acct_b.balances@, cd) == -1 {
                    lemma_account_units_push_zero(
                        acct_b.balances@,
                        acct_c.balances@[bi_ded as int],
                    );
                    assert(acct_c.balances@ == acct_b.balances@.push(
                        acct_c.balances@[bi_ded as int],
                    ));
                }
                assert(forall|c: int|
                    #[trigger] account_units(acct_c.balances@, c) == account_units(
                        acct_b.balances@,
                        c,
                    ));
                assert(account_units(acct_c.balances@, cd) == (
                    acct_c.balances@[bi_ded as int].total.units(),
                    acct_c.balances@[bi_ded as int].frozen.units(),
                    acct_c.balances@[bi_ded as int].available.units(),
                ));
            }
            let mut bal_ded = acct.balances[bi_ded];
            bal_ded.settle_deduct(deduct_amount);
            let ghost acct_mid2 = acct;
            acct.balances.set(bi_ded, bal_ded);
            proof {
                lemma_bal_idx_same_ids2(acct_mid2, acct, bi_ded as int);
                lemma_account_units_set(acct_mid2.balances@, acct.balances@, bi_ded as int, cd);
            }
        }
        self.accounts.insert(ai, acct);
        proof {
            assert(self.accounts@ =~= s_mid.accounts@.update(ai as int, acct));
            lemma_acct_set_wf(&s_mid, self, ai as int);
            assert(forall|c: int|
                c != ca && c != cd ==> #[trigger] account_units(acct.balances@, c)
                    == account_units(acct0.balances@, c));
            lemma_stored_update_account2(s_mid.accounts@, self.accounts@, ai as int, ca, cd);
            assert(frame_except2(old(self).accounts@, self.accounts@, aid, ca, cd)) by {
                assert forall|a2: int, c: int|
                    a2 != aid || (c != ca && c != cd) implies #[trigger] stored_units(
                    self.accounts@,
                    a2,
                    c,
                ) == stored_units(old(self).accounts@, a2, c) by {
                    assert(stored_units(self.accounts@, a2, c) == stored_units(
                        s_mid.accounts@,
                        a2,
                        c,
                    ));
                }
            }
            if failed {
                assert(forall|c: int|
                    #[trigger] account_units(acct.balances@, c) == account_units(
                        acct0.balances@,
                        c,
                    ));
                assert(frame_all(old(self).accounts@, self.accounts@)) by {
                    assert forall|a2: int, c: int| #[trigger] stored_units(self.accounts@, a2, c)
                        == stored_units(old(self).accounts@, a2, c) by {
                        assert(stored_units(self.accounts@, a2, c) == stored_units(
                            s_mid.accounts@,
                            a2,
                            c,
                        ));
                    }
                }
            }
        }
        if failed {
            Err(BalanceError::InvalidAmount(String::from_str("Amount out of range")))
        } else {
            Ok(())
        }
    }

    /// Release frozen funds back to available, clamped to what is actually
    /// frozen (spec: releasing the residual collateral of a fully filled or
    /// cancelled order never drives `frozen` negative); total unchanged and
    /// no other stored balance moves.
    pub fn release_frozen(&mut self, account_id: i32, currency_id: i32, amount: Decimal)
        requires
            old(self).wf(),
            amount.wf(),
        ensures
            final(self).wf(),
            ({
                let b0 = stored_units(old(self).accounts@, account_id as int, currency_id as int);
                let rel = if amount.units() <= b0.1 {
                    amount.units()
                } else {
                    b0.1
                };
                &&& stored_units(final(self).accounts@, account_id as int, currency_id as int)
                    == (b0.0, b0.1 - rel, b0.2 + rel)
                &&& frame_except(
                    old(self).accounts@,
                    final(self).accounts@,
                    account_id as int,
                    currency_id as int,
                )
            }),
    {
        let ghost gcid = currency_id as int;
        let ai = self.ensure_account(account_id);
        let ghost s_mid = *self;
        let mut acct = self.accounts.remove(ai);
        let ghost acct0 = acct;
        proof {
            if acct_idx(old(self).accounts@, account_id as int) == -1 {
                lemma_stored_push_account(old(self).accounts@, acct0);
                assert(bal_idx(acct0.balances@, gcid) == -1);
            }
            assert(stored_units(old(self).accounts@, account_id as int, gcid) == account_units(
                acct0.balances@,
                gcid,
            ));
        }
        let bi = acct.ensure_balance(currency_id);
        let ghost acct_a = acct;
        proof {
            if bal_idx(acct0.balances@, gcid) == -1 {
                lemma_account_units_push_zero(acct0.balances@, acct_a.balances@[bi as int]);
                assert(acct_a.balances@ == acct0.balances@.push(acct_a.balances@[bi as int]));
            }
            assert(forall|c: int|
                #[trigger] account_units(acct_a.balances@, c) == account_units(
                    acct0.balances@,
                    c,
                ));
            assert(account_units(acct_a.balances@, gcid) == (
                acct_a.balances@[bi as int].total.units(),
                acct_a.balances@[bi as int].frozen.units(),
                acct_a.balances@[bi as int].available.units(),
            ));
        }
        let mut bal = acct.balances[bi];
        let release = amount.min(&bal.frozen);
        if !release.is_zero() {
            match bal.unfreeze(release) {
                Ok(()) => {},
                Err(_) => {
                    proof {
                        assert(false);
                    }
                },
            }
        }
        let ghost acct_mid = acct;
        acct.balances.set(bi, bal);
        proof {
            lemma_bal_idx_same_ids2(acct_mid, acct, bi as int);
            lemma_account_units_set(acct_mid.balances@, acct.balances@, bi as int, gcid);
        }
        self.accounts.insert(ai, acct);
        proof {
            assert(self.accounts@ =~= s_mid.accounts@.update(ai as int, acct));
            lemma_acct_set_wf(&s_mid, self, ai as int);
            lemma_stored_update_account(s_mid.accounts@, self.accounts@, ai as int, gcid);
            assert forall|a2: int, c: int|
                a2 != account_id as int || c != gcid implies #[trigger] stored_units(
                self.accounts@,
                a2,
                c,
            ) == stored_units(old(self).accounts@, a2, c) by {
                assert(stored_units(self.accounts@, a2, c) == stored_units(s_mid.accounts@, a2, c));
            }
        }
    }

    /// Refund the collateral of a cancelled order the shard owns: quote at
    /// `price * remaining` for a bid, base at `remaining` for an ask,
    /// clamped to the frozen funds so they never go negative.
    pub fn unfreeze_order_balance(
        &mut self,
        cfg: &GlobalConfig,
        shard_id: usize,
        shard_count: usize,
        order: &Order,
    ) -> (r: Result<(), BalanceError>)
        requires
            old(self).wf(),
            order.wf(),
            1 <= shard_count <= i32::MAX as usize,
        ensures
            final(self).wf(),
            ({
                let owned = owner_shard(order.account_id as int, shard_count as int) == shard_id;
                let symo = find_symbol(cfg.symbols@, order.symbol_id as int);
                let cid = match order.side {
                    OrderSide::Bid => symo->Some_0.quote as int,
                    OrderSide::Ask => symo->Some_0.base as int,
                };
                let coll = match order.side {
                    OrderSide::Bid => product_units(order.price.units(), order.remaining_units()),
                    OrderSide::Ask => order.remaining_units(),
                };
                let b0 = stored_units(old(self).accounts@, order.account_id as int, cid);
                let rel = if coll <= b0.1 {
                    coll
                } else {
                    b0.1
                };
                &&& (r is Ok <==> (!owned || (symo is Some && (order.side is Ask
                    || bid_refund_fits(order.price, order.quantity, order.filled_quantity)))))
                &&& (match r {
                    Ok(()) => {
                        &&& (!owned ==> final(self).accounts@ == old(self).accounts@)
                        &&& (owned ==> symo is Some && {
                            &&& stored_units(
                                final(self).accounts@,
                                order.account_id as int,
                                cid,
                            ) == (b0.0, b0.1 - rel, b0.2 + rel)
                            &&& frame_except(
                                old(self).accounts@,
                                final(self).accounts@,
                                order.account_id as int,
                                cid,
                            )
                            &&& (order.side is Bid ==> coll * crate::decimal::ten_pow(
                                crate::decimal::MAX_SCALE as nat,
                            ) == order.price.units() * order.remaining_units())
                        })
                    },
                    Err(e) => {
                        &&& owned
                        &&& frame_all(old(self).accounts@, final(self).accounts@)
                        &&& (e is CurrencyNotFound <==> symo is None)
                        &&& (e is InvalidAmount ==> symo is Some && order.side is Bid)
                        &&& (e is InvalidAmount || e is CurrencyNotFound)
                    },
                })
            }),
    {
        let account_shard = shard_index(order.account_id, shard_count);
        if account_shard != shard_id {
            return Ok(());
        }
        let sym = match get_symbol(cfg, order.symbol_id) {
            Some(s) => s,
            None => {
                return Err(BalanceError::CurrencyNotFound);
            },
        };
        let remaining = order.remaining_quantity();
        let (cid, amount) = match order.side {
            OrderSide::Bid => {
                // the remaining quantity may carry trailing zero digits from
                // fills at finer scales; drop them so the exact product
                // exists whenever the values allow it
                let rem_n = remaining.normalize();
                proof {
                    crate::decimal::lemma_ten_pow_pos(
                        (crate::decimal::MAX_SCALE - remaining.scale) as nat,
                    );
                    remaining.lemma_units_bounds_mantissa_pub();
                    vstd::arithmetic::div_mod::lemma_div_by_multiple(
                        remaining.mantissa as int,
                        crate::decimal::ten_pow(
                            (crate::decimal::MAX_SCALE - remaining.scale) as nat,
                        ) as int,
                    );
                    assert(remaining.mantissa as nat == (remaining.units()
                        / crate::decimal::ten_pow(
                        (crate::decimal::MAX_SCALE - remaining.scale) as nat,
                    ) as int) as nat);
                }
                let a = match order.price.checked_mul(&rem_n) {
                    Some(a) => a,
                    None => {
                        return Err(
                            BalanceError::InvalidAmount(
                                String::from_str("Amount out of range"),
                            ),
                        );
                    },
                };
                proof {
                    a.lemma_units_bounds_mantissa_pub();
                    lemma_product_units_exact(order.price, rem_n, a);
                    crate::decimal::lemma_ten_pow_pos(crate::decimal::MAX_SCALE as nat);
                    vstd::arithmetic::mul::lemma_mul_strict_inequality(
                        a.units(),
                        UNITS_BOUND as int,
                        crate::decimal::ten_pow(crate::decimal::MAX_SCALE as nat) as int,
                    );
                    vstd::arithmetic::mul::lemma_mul_is_commutative(
                        a.units(),
                        crate::decimal::ten_pow(crate::decimal::MAX_SCALE as nat) as int,
                    );
                    vstd::arithmetic::mul::lemma_mul_is_commutative(
                        UNITS_BOUND as int,
                        crate::decimal::ten_pow(crate::decimal::MAX_SCALE as nat) as int,
                    );
                }
                (sym.quote, a)
            },
            OrderSide::Ask => (sym.base, remaining),
        };
        let ghost gcid = cid as int;
        let ai = self.ensure_account(account_id_of(order));
        let ghost s_mid = *self;
        let mut acct = self.accounts.remove(ai);
        let ghost acct0 = acct;
        proof {
            if acct_idx(old(self).accounts@, order.account_id as int) == -1 {
                lemma_stored_push_account(old(self).accounts@, acct0);
                assert(bal_idx(acct0.balances@, gcid) == -1);
            }
            assert(stored_units(old(self).accounts@, order.account_id as int, gcid)
                == account_units(acct0.balances@, gcid));
        }
        let bi = acct.ensure_balance(cid);
        let ghost acct_a = acct;
        proof {
            if bal_idx(acct0.balances@, gcid) == -1 {
                lemma_account_units_push_zero(acct0.balances@, acct_a.balances@[bi as int]);
                assert(acct_a.balances@ == acct0.balances@.push(acct_a.balances@[bi as int]));
            }
            assert(forall|c: int|
                #[trigger] account_units(acct_a.balances@, c) == account_units(
                    acct0.balances@,
                    c,
                ));
            assert(account_units(acct_a.balances@, gcid) == (
                acct_a.balances@[bi as int].total.units(),
                acct_a.balances@[bi as int].frozen.units(),
                acct_a.balances@[bi as int].available.units(),
            ));
        }
        let mut bal = acct.balances[bi];
        // release at most what is frozen (a concurrent settlement may have
        // already spent part of it); the identity survives the clamp
        let release = amount.min(&bal.frozen);
        if !release.is_zero() {
            match bal.unfreeze(release) {
                Ok(()) => {},
                Err(_) => {
                    proof {
                        assert(false);
                    }
                },
            }
        }
        let ghost acct_mid = acct;
        acct.balances.set(bi, bal);
        proof {
            lemma_bal_idx_same_ids2(acct_mid, acct, bi as int);
            lemma_account_units_set(acct_mid.balances@, acct.balances@, bi as int, gcid);
        }
        self.accounts.insert(ai, acct);
        proof {
            assert(self.accounts@ =~= s_mid.accounts@.update(ai as int, acct));
            lemma_acct_set_wf(&s_mid, self, ai as int);
            lemma_stored_update_account(s_mid.accounts@, self.accounts@, ai as int, gcid);
            assert forall|a2: int, c: int|
                a2 != order.account_id as int || c != gcid implies #[trigger] stored_units(
                self.accounts@,
                a2,
                c,
            ) == stored_units(old(self).accounts@, a2, c) by {
                assert(stored_units(self.accounts@, a2, c) == stored_units(s_mid.accounts@, a2, c));
            }
        }
        Ok(())
    }
}

/// The account id of an order (a reference-friendly accessor).
fn account_id_of(order: &Order) -> (r: i32)
    ensures
        r == order.account_id,
{
    order.account_id
}

/// Same, phrased over an account modified in place.
proof fn lemma_bal_idx_same_ids2(a0: Account, a1: Account, bi: int)
    requires
        a0.wf(),
        0 <= bi < a0.balances@.len(),
        a1.balances@.len() == a0.balances@.len(),
        forall|j: int| 0 <= j < a1.balances@.len() && j != bi ==> a1.balances@[j] == a0.balances@[j],
        a1.balances@[bi].wf(),
        a1.balances@[bi].currency_id == a0.balances@[bi].currency_id,
    ensures
        a1.wf(),
{
    assert forall|j: int| 0 <= j < a1.balances@.len() implies (#[trigger] a1.balances@[j]).wf() by {
        if j != bi {
            assert(a1.balances@[j] == a0.balances@[j]);
        }
    }
    assert forall|j1: int, j2: int|
        0 <= j1 < j2 < a1.balances@.len() implies (#[trigger] a1.balances@[j1]).currency_id != (
    #[trigger] a1.balances@[j2]).currency_id by {
        assert(a1.balances@[j1].currency_id == a0.balances@[j1].currency_id);
        assert(a1.balances@[j2].currency_id == a0.balances@[j2].currency_id);
    }
}

/// Replacing one account with a well-formed account of the same id keeps
/// the manager well-formed.
proof fn lemma_acct_set_wf(m0: &BalanceManager, m1: &BalanceManager, ai: int)
    requires
        m0.wf(),
        0 <= ai < m0.accounts@.len(),
        m1.accounts@.len() == m0.accounts@.len(),
        forall|j: int| 0 <= j < m1.accounts@.len() && j != ai ==> m1.accounts@[j] == m0.accounts@[j],
        m1.accounts@[ai].wf(),
        m1.accounts@[ai].id == m0.accounts@[ai].id,
    ensures
        m1.wf(),
{
    assert forall|j: int| 0 <= j < m1.accounts@.len() implies (#[trigger] m1.accounts@[j]).wf() by {
        if j != ai {
            assert(m1.accounts@[j] == m0.accounts@[j]);
        }
    }
    assert forall|j1: int, j2: int|
        0 <= j1 < j2 < m1.accounts@.len() implies (#[trigger] m1.accounts@[j1]).id != (
    #[trigger] m1.accounts@[j2]).id by {
        assert(m1.accounts@[j1].id == m0.accounts@[j1].id);
        assert(m1.accounts@[j2].id == m0.accounts@[j2].id);
    }
}

/// Stability of account lookup under an in-place update.
proof fn lemma_acct_idx_stable(s0: Seq<Account>, s1: Seq<Account>, ai: int)
    requires
        0 <= ai < s0.len(),
        s1.len() == s0.len(),
        forall|j: int| 0 <= j < s1.len() && j != ai ==> s1[j] == s0[j],
        s1[ai].id == s0[ai].id,
    ensures
        forall|id: int| acct_idx(s1, id) == acct_idx(s0, id),
    decreases s0.len(),
{
    assert forall|id: int| acct_idx(s1, id) == acct_idx(s0, id) by {
        lemma_acct_idx_same(s0, s1, id);
    }
}

/// Balance lookup by currency only depends on the currency ids.
proof fn lemma_bal_idx_same(s0: Seq<AccountBalance>, s1: Seq<AccountBalance>, cid: int)
    requires
        s1.len() == s0.len(),
        forall|j: int|
            0 <= j < s0.len() ==> (#[trigger] s1[j]).currency_id == s0[j].currency_id,
    ensures
        bal_idx(s1, cid) == bal_idx(s0, cid),
    decreases s0.len(),
{
    if s0.len() > 0 {
        assert(s1[0].currency_id == s0[0].currency_id);
        assert(forall|j: int|
            0 <= j < s0.drop_first().len() ==> (#[trigger] s1.drop_first()[j]).currency_id
                == s0.drop_first()[j].currency_id);
        lemma_bal_idx_same(s0.drop_first(), s1.drop_first(), cid);
    }
}

/// Lookup by id only depends on the ids.
proof fn lemma_acct_idx_same(s0: Seq<Account>, s1: Seq<Account>, id: int)
    requires
        s1.len() == s0.len(),
        forall|j: int| 0 <= j < s0.len() ==> (#[trigger] s1[j]).id == s0[j].id,
    ensures
        acct_idx(s1, id) == acct_idx(s0, id),
    decreases s0.len(),
{
    if s0.len() > 0 {
        assert(s1[0].id == s0[0].id);
        assert(forall|j: int|
            0 <= j < s0.drop_first().len() ==> (#[trigger] s1.drop_first()[j]).id
                == s0.drop_first()[j].id);
        lemma_acct_idx_same(s0.drop_first(), s1.drop_first(), id);
    }
}

} // verus!
