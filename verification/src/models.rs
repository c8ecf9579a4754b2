//! Error taxonomy, currency and symbol tables, and shard selection.
//!
//! The currency/symbol table is read-only after construction: it is built
//! once by [`init_global_config`] and then passed by shared reference to the
//! shards that need it.

use vstd::prelude::*;
use vstd::string::StringExecFns;

verus! {

/// Reasons a balance or order command is rejected.
#[derive(Debug, Clone)]
pub enum BalanceError {
    InsufficientBalance,
    InvalidAmount(String),
    AccountNotFound,
    CurrencyNotFound,
}

impl BalanceError {
    /// Human-readable description, used by the transport layer.
    pub fn message(&self) -> (r: String)
        ensures
            match self {
                BalanceError::InsufficientBalance => r@ == "Insufficient balance"@,
                BalanceError::InvalidAmount(s) => r@ == "Invalid amount: "@ + s@,
                BalanceError::AccountNotFound => r@ == "Account not found"@,
                BalanceError::CurrencyNotFound => r@ == "Currency not found"@,
            },
    {
        match self {
            BalanceError::InsufficientBalance => String::from_str("Insufficient balance"),
            BalanceError::InvalidAmount(s) => {
                let mut m = String::from_str("Invalid amount: ");
                m.append(s.as_str());
                m
            },
            BalanceError::AccountNotFound => String::from_str("Account not found"),
            BalanceError::CurrencyNotFound => String::from_str("Currency not found"),
        }
    }
}

/// A currency known to the core.
#[derive(Debug, Clone)]
pub struct Currency {
    pub id: i32,
    pub name: String,
}

/// A trading pair: amounts of `base` are priced in `quote`.
#[derive(Debug, Clone)]
pub struct Symbol {
    pub id: i32,
    pub name: String,
    pub base: i32,
    pub quote: i32,
}

/// The process-wide read-only table of currencies and trading pairs.
#[derive(Debug, Clone)]
pub struct GlobalConfig {
    pub currencies: Vec<Currency>,
    pub symbols: Vec<Symbol>,
}

/// First currency of `s` with the given id, if any.
pub open spec fn find_currency(s: Seq<Currency>, id: int) -> Option<Currency>
    decreases s.len(),
{
    if s.len() == 0 {
        None
    } else if s[0].id == id {
        Some(s[0])
    } else {
        find_currency(s.drop_first(), id)
    }
}

/// First symbol of `s` with the given id, if any.
pub open spec fn find_symbol(s: Seq<Symbol>, id: int) -> Option<Symbol>
    decreases s.len(),
{
    if s.len() == 0 {
        None
    } else if s[0].id == id {
        Some(s[0])
    } else {
        find_symbol(s.drop_first(), id)
    }
}

/// Build the initial table: BTC (1) and USDT (2), and the BTC-USDT pair
/// (symbol 1, base BTC, quote USDT).
pub fn init_global_config() -> (cfg: GlobalConfig)
    ensures
        cfg.currencies@.len() == 2,
        cfg.currencies@[0].id == 1 && cfg.currencies@[0].name@ == "BTC"@,
        cfg.currencies@[1].id == 2 && cfg.currencies@[1].name@ == "USDT"@,
        cfg.symbols@.len() == 1,
        cfg.symbols@[0].id == 1 && cfg.symbols@[0].name@ == "BTC-USDT"@,
        cfg.symbols@[0].base == 1 && cfg.symbols@[0].quote == 2,
{
    let mut currencies: Vec<Currency> = Vec::new();
    currencies.push(Currency { id: 1, name: String::from_str("BTC") });
    currencies.push(Currency { id: 2, name: String::from_str("USDT") });
    let mut symbols: Vec<Symbol> = Vec::new();
    symbols.push(Symbol { id: 1, name: String::from_str("BTC-USDT"), base: 1, quote: 2 });
    GlobalConfig { currencies, symbols }
}

/// Look a symbol up by id.
pub fn get_symbol(cfg: &GlobalConfig, symbol_id: i32) -> (r: Option<&Symbol>)
    ensures
        match r {
            Some(s) => find_symbol(cfg.symbols@, symbol_id as int) == Some(*s),
            None => find_symbol(cfg.symbols@, symbol_id as int) is None,
        },
{
    let n = cfg.symbols.len();
    let mut i: usize = 0;
    proof {
        assert(cfg.symbols@.skip(0) =~= cfg.symbols@);
    }
    while i < n
        invariant
            i <= n == cfg.symbols@.len(),
            find_symbol(cfg.symbols@, symbol_id as int) == find_symbol(
                cfg.symbols@.skip(i as int),
                symbol_id as int,
            ),
        decreases n - i,
    {
        proof {
            assert(cfg.symbols@.skip(i as int)[0] == cfg.symbols@[i as int]);
            assert(cfg.symbols@.skip(i as int).drop_first() =~= cfg.symbols@.skip(i as int + 1));
        }
        if cfg.symbols[i].id == symbol_id {
            return Some(&cfg.symbols[i]);
        }
        i = i + 1;
    }
    proof {
        assert(cfg.symbols@.skip(n as int).len() == 0);
    }
    None
}

/// Look a currency up by id.
pub fn get_currency(cfg: &GlobalConfig, currency_id: i32) -> (r: Option<&Currency>)
    ensures
        match r {
            Some(c) => find_currency(cfg.currencies@, currency_id as int) == Some(*c),
            None => find_currency(cfg.currencies@, currency_id as int) is None,
        },
{
    let n = cfg.currencies.len();
    let mut i: usize = 0;
    proof {
        assert(cfg.currencies@.skip(0) =~= cfg.currencies@);
    }
    while i < n
        invariant
            i <= n == cfg.currencies@.len(),
            find_currency(cfg.currencies@, currency_id as int) == find_currency(
                cfg.currencies@.skip(i as int),
                currency_id as int,
            ),
        decreases n - i,
    {
        proof {
            assert(cfg.currencies@.skip(i as int)[0] == cfg.currencies@[i as int]);
            assert(cfg.currencies@.skip(i as int).drop_first() =~= cfg.currencies@.skip(
                i as int + 1,
            ));
        }
        if cfg.currencies[i].id == currency_id {
            return Some(&cfg.currencies[i]);
        }
        i = i + 1;
    }
    proof {
        assert(cfg.currencies@.skip(n as int).len() == 0);
    }
    None
}

/// The shard that owns an account or a symbol: `|id| mod n`.
pub open spec fn owner_shard(id: int, n: int) -> int {
    (if id < 0 {
        -id
    } else {
        id
    }) % n
}

/// Shard selection, part of the routing contract.
pub fn shard_index(id: i32, n: usize) -> (r: usize)
    requires
        1 <= n <= i32::MAX as usize,
    ensures
        r as int == owner_shard(id as int, n as int),
        r < n,
{
    let m = id % (n as i32);
    if m < 0 {
        (-m) as usize
    } else {
        m as usize
    }
}

} // verus!
