//! Fixed-point decimal amounts.
//!
//! Every money or quantity value in the core is a non-negative decimal
//! `mantissa * 10^-scale` with at most [`MAX_SCALE`] fractional digits and a
//! value strictly below 10^20.  The mathematical value of an amount is taken
//! at the canonical scale [`MAX_SCALE`]: [`Decimal::units`] returns
//! `mantissa * 10^(MAX_SCALE - scale)`, an integer, and every arithmetic
//! contract is stated over it.  Arithmetic is exact: an operation whose exact
//! result cannot be represented reports failure instead of rounding.

use vstd::prelude::*;
use vstd::arithmetic::mul::{
    lemma_mul_inequality, lemma_mul_is_associative, lemma_mul_is_distributive_add_other_way,
    lemma_mul_is_distributive_sub_other_way, lemma_mul_increases, lemma_mul_strictly_positive,
    lemma_mul_is_commutative,
};

verus! {

/// Largest number of fractional digits an amount may carry.
pub const MAX_SCALE: u32 = 14;

/// Exclusive bound on `Decimal::units`: 10^34, so values stay below 10^20.
pub const UNITS_BOUND: u128 = 10_000_000_000_000_000_000_000_000_000_000_000;

/// 10^e as a mathematical natural.
pub open spec fn ten_pow(e: nat) -> nat
    decreases e,
{
    if e == 0 {
        1
    } else {
        10 * ten_pow((e - 1) as nat)
    }
}

pub proof fn lemma_ten_pow_pos(e: nat)
    ensures
        ten_pow(e) >= 1,
    decreases e,
{
    if e > 0 {
        lemma_ten_pow_pos((e - 1) as nat);
    }
}

pub proof fn lemma_ten_pow_add(a: nat, b: nat)
    ensures
        ten_pow(a + b) == ten_pow(a) * ten_pow(b),
    decreases a,
{
    if a == 0 {
    } else {
        lemma_ten_pow_add((a - 1) as nat, b);
        assert(ten_pow(a + b) == 10 * ten_pow((a - 1) as nat + b));
        assert(10 * (ten_pow((a - 1) as nat) * ten_pow(b)) == (10 * ten_pow(
            (a - 1) as nat,
        )) * ten_pow(b)) by {
            lemma_mul_is_associative(10, ten_pow((a - 1) as nat) as int, ten_pow(b) as int);
        }
    }
}

pub proof fn lemma_ten_pow_mono(a: nat, b: nat)
    requires
        a <= b,
    ensures
        ten_pow(a) <= ten_pow(b),
{
    lemma_ten_pow_add(a, (b - a) as nat);
    lemma_ten_pow_pos(a);
    lemma_ten_pow_pos((b - a) as nat);
    lemma_mul_increases(ten_pow((b - a) as nat) as int, ten_pow(a) as int);
    lemma_mul_is_commutative(ten_pow(a) as int, ten_pow((b - a) as nat) as int);
}

pub proof fn lemma_ten_pow_14()
    ensures
        ten_pow(14) == 100_000_000_000_000,
{
    reveal_with_fuel(ten_pow, 15);
}

/// 10^e for small exponents, as a machine integer.
pub fn ten_pow_u128(e: u32) -> (r: u128)
    requires
        e <= MAX_SCALE,
    ensures
        r as int == ten_pow(e as nat),
        r >= 1,
{
    proof {
        lemma_ten_pow_14();
    }
    let mut r: u128 = 1;
    let mut i: u32 = 0;
    while i < e
        invariant
            i <= e <= MAX_SCALE,
            r as int == ten_pow(i as nat),
        decreases e - i,
    {
        proof {
            lemma_ten_pow_14();
            lemma_ten_pow_mono((i + 1) as nat, 14);
            assert(ten_pow((i + 1) as nat) == 10 * ten_pow(i as nat));
        }
        r = r * 10;
        i = i + 1;
    }
    proof {
        lemma_ten_pow_pos(e as nat);
    }
    r
}

/// A non-negative fixed-point decimal: `mantissa * 10^-scale`.
#[derive(Clone, Copy, Debug, PartialEq, Eq, Structural)]
pub struct Decimal {
    pub mantissa: u128,
    pub scale: u32,
}

impl Decimal {
    /// Mathematical value of the amount, in units of `10^-MAX_SCALE`.
    pub open spec fn units(&self) -> int {
        self.mantissa as int * ten_pow((MAX_SCALE - self.scale) as nat) as int
    }

    /// Well-formed: scale within range and value below the global bound.
    pub open spec fn wf(&self) -> bool {
        &&& self.scale <= MAX_SCALE
        &&& self.units() < UNITS_BOUND as int
    }

    proof fn lemma_units_bounds_mantissa(&self)
        requires
            self.scale <= MAX_SCALE,
        ensures
            self.mantissa as int <= self.units(),
            self.units() >= 0,
    {
        let p = ten_pow((MAX_SCALE - self.scale) as nat) as int;
        lemma_ten_pow_pos((MAX_SCALE - self.scale) as nat);
        if self.mantissa > 0 {
            lemma_mul_increases(p, self.mantissa as int);
            lemma_mul_is_commutative(p, self.mantissa as int);
        }
    }

    /// Public face of the mantissa bound: the mantissa never exceeds the
    /// value in canonical units.
    pub proof fn lemma_units_bounds_mantissa_pub(&self)
        requires
            self.scale <= MAX_SCALE,
        ensures
            self.mantissa as int <= self.units(),
            self.units() >= 0,
    {
        self.lemma_units_bounds_mantissa();
    }

    /// The zero amount.
    pub fn zero() -> (r: Decimal)
        ensures
            r.wf(),
            r.units() == 0,
            r.mantissa == 0,
            r.scale == 0,
    {
        proof {
            lemma_ten_pow_14();
        }
        Decimal { mantissa: 0, scale: 0 }
    }

    /// An amount given directly as a mantissa and a scale.
    pub fn new(mantissa: u64, scale: u32) -> (r: Decimal)
        requires
            scale <= MAX_SCALE,
        ensures
            r.wf(),
            r.mantissa == mantissa,
            r.scale == scale,
            r.units() == mantissa as int * ten_pow((MAX_SCALE - scale) as nat) as int,
    {
        let r = Decimal { mantissa: mantissa as u128, scale };
        proof {
            lemma_ten_pow_mono((MAX_SCALE - scale) as nat, 14);
            lemma_ten_pow_14();
            lemma_mul_inequality(
                ten_pow((MAX_SCALE - scale) as nat) as int,
                ten_pow(14) as int,
                mantissa as int,
            );
            lemma_mul_is_commutative(mantissa as int, ten_pow((MAX_SCALE - scale) as nat) as int);
            lemma_mul_is_commutative(mantissa as int, ten_pow(14) as int);
            assert(mantissa as int * ten_pow(14) as int <= 0xffff_ffff_ffff_ffff
                * 100_000_000_000_000) by {
                lemma_mul_inequality(mantissa as int, 0xffff_ffff_ffff_ffff, ten_pow(14) as int);
            }
        }
        r
    }

    /// Value of the amount in canonical units, as a machine integer.
    pub fn to_units(&self) -> (r: u128)
        requires
            self.wf(),
        ensures
            r as int == self.units(),
            r < UNITS_BOUND,
    {
        proof {
            self.lemma_units_bounds_mantissa();
        }
        let p = ten_pow_u128(MAX_SCALE - self.scale);
        self.mantissa * p
    }

    /// True iff the amount is zero.
    pub fn is_zero(&self) -> (r: bool)
        requires
            self.wf(),
        ensures
            r == (self.units() == 0),
    {
        proof {
            self.lemma_units_bounds_mantissa();
            if self.mantissa > 0 {
                lemma_ten_pow_pos((MAX_SCALE - self.scale) as nat);
                lemma_mul_strictly_positive(
                    self.mantissa as int,
                    ten_pow((MAX_SCALE - self.scale) as nat) as int,
                );
            }
        }
        self.mantissa == 0
    }

    /// Numeric comparison: `self <= other`.
    pub fn le(&self, other: &Decimal) -> (r: bool)
        requires
            self.wf(),
            other.wf(),
        ensures
            r == (self.units() <= other.units()),
    {
        self.to_units() <= other.to_units()
    }

    /// Numeric comparison: `self < other`.
    pub fn lt(&self, other: &Decimal) -> (r: bool)
        requires
            self.wf(),
            other.wf(),
        ensures
            r == (self.units() < other.units()),
    {
        self.to_units() < other.to_units()
    }

    /// Numeric equality, indifferent to scale.
    pub fn eq_value(&self, other: &Decimal) -> (r: bool)
        requires
            self.wf(),
            other.wf(),
        ensures
            r == (self.units() == other.units()),
    {
        self.to_units() == other.to_units()
    }

    /// The numerically smaller of the two amounts.
    pub fn min(&self, other: &Decimal) -> (r: Decimal)
        requires
            self.wf(),
            other.wf(),
        ensures
            r == if self.units() <= other.units() {
                *self
            } else {
                *other
            },
            r.wf(),
            r.units() <= self.units(),
            r.units() <= other.units(),
    {
        if self.le(other) {
            *self
        } else {
            *other
        }
    }

    /// Exact sum; `None` when the result would leave the representable range.
    pub fn checked_add(&self, other: &Decimal) -> (r: Option<Decimal>)
        requires
            self.wf(),
            other.wf(),
        ensures
            match r {
                Some(d) => {
                    &&& d.wf()
                    &&& d.units() == self.units() + other.units()
                    &&& d.scale == if self.scale >= other.scale {
                        self.scale
                    } else {
                        other.scale
                    }
                },
                None => self.units() + other.units() >= UNITS_BOUND as int,
            },
    {
        let ua = self.to_units();
        let ub = other.to_units();
        if ua + ub >= UNITS_BOUND {
            return None;
        }
        let sr = if self.scale >= other.scale {
            self.scale
        } else {
            other.scale
        };
        let ma = self.rescaled_mantissa(sr);
        let mb = other.rescaled_mantissa(sr);
        let d = Decimal { mantissa: ma + mb, scale: sr };
        proof {
            lemma_mul_is_distributive_add_other_way(
                ten_pow((MAX_SCALE - sr) as nat) as int,
                ma as int,
                mb as int,
            );
        }
        Some(d)
    }

    /// Exact difference; `None` when `other` exceeds `self`.
    pub fn checked_sub(&self, other: &Decimal) -> (r: Option<Decimal>)
        requires
            self.wf(),
            other.wf(),
        ensures
            match r {
                Some(d) => {
                    &&& d.wf()
                    &&& d.units() == self.units() - other.units()
                    &&& d.scale == if self.scale >= other.scale {
                        self.scale
                    } else {
                        other.scale
                    }
                },
                None => self.units() < other.units(),
            },
    {
        let ua = self.to_units();
        let ub = other.to_units();
        if ua < ub {
            return None;
        }
        let sr = if self.scale >= other.scale {
            self.scale
        } else {
            other.scale
        };
        let ma = self.rescaled_mantissa(sr);
        let mb = other.rescaled_mantissa(sr);
        proof {
            if ma < mb {
                lemma_mul_inequality(
                    ma as int + 1,
                    mb as int,
                    ten_pow((MAX_SCALE - sr) as nat) as int,
                );
                lemma_ten_pow_pos((MAX_SCALE - sr) as nat);
                lemma_mul_is_distributive_add_other_way(
                    ten_pow((MAX_SCALE - sr) as nat) as int,
                    ma as int,
                    1,
                );
            }
        }
        let d = Decimal { mantissa: ma - mb, scale: sr };
        proof {
            lemma_mul_is_distributive_sub_other_way(
                ten_pow((MAX_SCALE - sr) as nat) as int,
                ma as int,
                mb as int,
            );
        }
        Some(d)
    }

    /// The mantissa of this amount rewritten at the coarser scale `sr`.
    fn rescaled_mantissa(&self, sr: u32) -> (r: u128)
        requires
            self.wf(),
            self.scale <= sr <= MAX_SCALE,
        ensures
            r as int * ten_pow((MAX_SCALE - sr) as nat) as int == self.units(),
            r as int <= self.units(),
    {
        let p = ten_pow_u128(sr - self.scale);
        proof {
            lemma_ten_pow_mono((sr - self.scale) as nat, (MAX_SCALE - self.scale) as nat);
            lemma_mul_inequality(
                ten_pow((sr - self.scale) as nat) as int,
                ten_pow((MAX_SCALE - self.scale) as nat) as int,
                self.mantissa as int,
            );
            lemma_mul_is_commutative(self.mantissa as int, p as int);
            lemma_mul_is_commutative(
                self.mantissa as int,
                ten_pow((MAX_SCALE - self.scale) as nat) as int,
            );
            self.lemma_units_bounds_mantissa();
            lemma_rescale(
                self.mantissa as nat,
                (sr - self.scale) as nat,
                (MAX_SCALE - sr) as nat,
            );
        }
        self.mantissa * p
    }
}

/// `(m * 10^a) * 10^b == m * 10^(a+b)`.
proof fn lemma_rescale(m: nat, a: nat, b: nat)
    ensures
        (m * ten_pow(a)) * ten_pow(b) == m * ten_pow(a + b),
{
    lemma_ten_pow_add(a, b);
    lemma_mul_is_associative(m as int, ten_pow(a) as int, ten_pow(b) as int);
}

/// Whether `m * 10^(MAX_SCALE - sc)` stays below `UNITS_BOUND`, decided
/// without computing the (possibly huge) product.
fn units_within_bound(m: u128, sc: u32) -> (r: bool)
    requires
        sc <= MAX_SCALE,
    ensures
        r == ((m as int * ten_pow((MAX_SCALE - sc) as nat) as int) < UNITS_BOUND as int),
{
    let p = ten_pow_u128(MAX_SCALE - sc);
    let q = (UNITS_BOUND - 1) / p;
    proof {
        let pi = p as int;
        let qi = q as int;
        let mi = m as int;
        vstd::arithmetic::div_mod::lemma_fundamental_div_mod(UNITS_BOUND as int - 1, pi);
        if mi <= qi {
            lemma_mul_inequality(mi, qi, pi);
            lemma_mul_is_commutative(qi, pi);
        } else {
            lemma_mul_inequality(qi + 1, mi, pi);
            lemma_mul_is_distributive_add_other_way(pi, qi, 1);
            lemma_mul_is_commutative(qi, pi);
        }
    }
    m <= q
}

impl Decimal {
    /// Exact product; `None` when the exact result cannot be represented,
    /// i.e. when the combined scale exceeds `MAX_SCALE` or the value leaves
    /// the representable range.
    pub fn checked_mul(&self, other: &Decimal) -> (r: Option<Decimal>)
        requires
            self.wf(),
            other.wf(),
        ensures
            match r {
                Some(d) => {
                    &&& d.wf()
                    &&& d.scale == self.scale + other.scale
                    &&& d.units() * ten_pow(MAX_SCALE as nat) == self.units() * other.units()
                },
                None => self.scale + other.scale > MAX_SCALE || self.units() * other.units()
                    >= UNITS_BOUND as int * ten_pow(MAX_SCALE as nat) as int,
            },
    {
        if other.scale > MAX_SCALE || self.scale > MAX_SCALE - other.scale {
            return None;
        }
        let sc = self.scale + other.scale;
        let ghost ma = self.mantissa as int;
        let ghost mb = other.mantissa as int;
        let ghost pc = ten_pow((MAX_SCALE - sc) as nat) as int;
        if self.mantissa != 0 && other.mantissa > u128::MAX / self.mantissa {
            proof {
                let q = u128::MAX as int / ma;
                vstd::arithmetic::div_mod::lemma_fundamental_div_mod(u128::MAX as int, ma);
                lemma_mul_inequality(q + 1, mb, ma);
                lemma_mul_is_distributive_add_other_way(ma, q, 1);
                lemma_mul_is_commutative(q, ma);
                lemma_mul_is_commutative(mb, ma);
                lemma_mantissa_overflow_means_out_of_range(
                    self.mantissa as nat,
                    other.mantissa as nat,
                    self.scale as nat,
                    other.scale as nat,
                );
            }
            return None;
        }
        proof {
            if self.mantissa != 0 {
                let q = u128::MAX as int / ma;
                vstd::arithmetic::div_mod::lemma_fundamental_div_mod(u128::MAX as int, ma);
                lemma_mul_inequality(mb, q, ma);
                lemma_mul_is_commutative(q, ma);
                lemma_mul_is_commutative(ma, mb);
            }
        }
        let mc = self.mantissa * other.mantissa;
        if !units_within_bound(mc, sc) {
            proof {
                lemma_units_product(ma as nat, mb as nat, self.scale as nat, other.scale as nat);
                lemma_mul_inequality(
                    UNITS_BOUND as int,
                    mc as int * pc,
                    ten_pow(MAX_SCALE as nat) as int,
                );
                lemma_ten_pow_pos(MAX_SCALE as nat);
            }
            return None;
        }
        let d = Decimal { mantissa: mc, scale: sc };
        proof {
            lemma_units_product(ma as nat, mb as nat, self.scale as nat, other.scale as nat);
        }
        Some(d)
    }
}

/// `(ma*10^(14-sa)) * (mb*10^(14-sb)) == ((ma*mb) * 10^(14-sa-sb)) * 10^14`
/// when `sa + sb <= 14`: multiplying values multiplies mantissas and adds scales.
proof fn lemma_units_product(ma: nat, mb: nat, sa: nat, sb: nat)
    requires
        sa <= MAX_SCALE,
        sb <= MAX_SCALE,
        sa + sb <= MAX_SCALE,
    ensures
        (ma * ten_pow((MAX_SCALE - sa) as nat)) * (mb * ten_pow((MAX_SCALE - sb) as nat)) == ((ma
            * mb) * ten_pow((MAX_SCALE - sa - sb) as nat)) * ten_pow(MAX_SCALE as nat),
{
    let pa = ten_pow((MAX_SCALE - sa) as nat) as int;
    let pb = ten_pow((MAX_SCALE - sb) as nat) as int;
    let pc = ten_pow((MAX_SCALE - sa - sb) as nat) as int;
    let p14 = ten_pow(MAX_SCALE as nat) as int;
    lemma_ten_pow_add((MAX_SCALE - sa) as nat, (MAX_SCALE - sb) as nat);
    lemma_ten_pow_add((MAX_SCALE - sa - sb) as nat, MAX_SCALE as nat);
    assert(pa * pb == pc * p14);
    assert((ma as int * pa) * (mb as int * pb) == (ma as int * mb as int) * (pa * pb))
        by (nonlinear_arith);
    assert(((ma as int * mb as int) * pc) * p14 == (ma as int * mb as int) * (pc * p14))
        by (nonlinear_arith);
}

/// The character for a single decimal digit.
pub open spec fn digit_char(d: nat) -> char {
    if d == 0 {
        '0'
    } else if d == 1 {
        '1'
    } else if d == 2 {
        '2'
    } else if d == 3 {
        '3'
    } else if d == 4 {
        '4'
    } else if d == 5 {
        '5'
    } else if d == 6 {
        '6'
    } else if d == 7 {
        '7'
    } else if d == 8 {
        '8'
    } else {
        '9'
    }
}

/// The decimal digits of `n`, most significant first, no leading zeros
/// (`"0"` for zero).
pub open spec fn u_digits(n: nat) -> Seq<char>
    decreases n,
{
    if n < 10 {
        seq![digit_char(n)]
    } else {
        u_digits(n / 10).push(digit_char(n % 10))
    }
}

/// The last `w` decimal digits of `n`, zero-padded to exactly width `w`.
pub open spec fn padded_digits(n: nat, w: nat) -> Seq<char>
    decreases w,
{
    if w == 0 {
        Seq::empty()
    } else {
        padded_digits(n / 10, (w - 1) as nat).push(digit_char(n % 10))
    }
}

/// The canonical rendering of mantissa `m` at scale `s`: the integer part
/// without leading zeros, then, if `s > 0`, a point and exactly `s`
/// fractional digits.
pub open spec fn dec_chars(m: nat, s: nat) -> Seq<char> {
    if s == 0 {
        u_digits(m)
    } else {
        u_digits(m / ten_pow(s)) + seq!['.'] + padded_digits(m % ten_pow(s), s)
    }
}

fn push_digit(out: &mut String, d: u128)
    requires
        d < 10,
    ensures
        final(out)@ == old(out)@.push(digit_char(d as nat)),
{
    if d == 0 {
        proof {
            reveal_strlit("0");
        }
        out.append("0");
    } else if d == 1 {
        proof {
            reveal_strlit("1");
        }
        out.append("1");
    } else if d == 2 {
        proof {
            reveal_strlit("2");
        }
        out.append("2");
    } else if d == 3 {
        proof {
            reveal_strlit("3");
        }
        out.append("3");
    } else if d == 4 {
        proof {
            reveal_strlit("4");
        }
        out.append("4");
    } else if d == 5 {
        proof {
            reveal_strlit("5");
        }
        out.append("5");
    } else if d == 6 {
        proof {
            reveal_strlit("6");
        }
        out.append("6");
    } else if d == 7 {
        proof {
            reveal_strlit("7");
        }
        out.append("7");
    } else if d == 8 {
        proof {
            reveal_strlit("8");
        }
        out.append("8");
    } else {
        proof {
            reveal_strlit("9");
        }
        out.append("9");
    }
    assert(out@ =~= old(out)@.push(digit_char(d as nat)));
}

fn push_u_digits(out: &mut String, n: u128)
    ensures
        final(out)@ == old(out)@ + u_digits(n as nat),
    decreases n,
{
    if n < 10 {
        push_digit(out, n);
    } else {
        push_u_digits(out, n / 10);
        push_digit(out, n % 10);
    }
    assert(out@ =~= old(out)@ + u_digits(n as nat));
}

fn push_padded(out: &mut String, n: u128, w: u32)
    ensures
        final(out)@ == old(out)@ + padded_digits(n as nat, w as nat),
    decreases w,
{
    if w == 0 {
        assert(out@ =~= old(out)@ + padded_digits(n as nat, 0));
    } else {
        push_padded(out, n / 10, w - 1);
        push_digit(out, n % 10);
        assert(out@ =~= old(out)@ + padded_digits(n as nat, w as nat));
    }
}

impl Decimal {
    /// Render the amount; the text keeps the amount's own scale, e.g.
    /// mantissa 500000 at scale 3 prints as `500.000`.
    pub fn to_string(&self) -> (r: String)
        requires
            self.wf(),
        ensures
            r@ == dec_chars(self.mantissa as nat, self.scale as nat),
    {
        let mut out = String::new();
        if self.scale == 0 {
            push_u_digits(&mut out, self.mantissa);
        } else {
            let p = ten_pow_u128(self.scale);
            push_u_digits(&mut out, self.mantissa / p);
            proof {
                reveal_strlit(".");
            }
            out.append(".");
            push_padded(&mut out, self.mantissa % p, self.scale);
            assert(out@ =~= dec_chars(self.mantissa as nat, self.scale as nat));
        }
        out
    }
}

/// If the mantissa product overflows `u128`, the exact product of the two
/// values is out of the representable range.
proof fn lemma_mantissa_overflow_means_out_of_range(ma: nat, mb: nat, sa: nat, sb: nat)
    requires
        sa <= MAX_SCALE,
        sb <= MAX_SCALE,
        sa + sb <= MAX_SCALE,
        ma * mb > u128::MAX,
    ensures
        (ma * ten_pow((MAX_SCALE - sa) as nat)) * (mb * ten_pow((MAX_SCALE - sb) as nat))
            >= UNITS_BOUND as int * ten_pow(MAX_SCALE as nat) as int,
{
    lemma_units_product(ma, mb, sa, sb);
    let pc = ten_pow((MAX_SCALE - sa - sb) as nat) as int;
    let p14 = ten_pow(MAX_SCALE as nat) as int;
    lemma_ten_pow_pos((MAX_SCALE - sa - sb) as nat);
    lemma_mul_increases(pc, (ma * mb) as int);
    lemma_mul_is_commutative(pc, (ma * mb) as int);
    lemma_mul_inequality(UNITS_BOUND as int, (ma * mb) as int * pc, p14);
    lemma_ten_pow_pos(MAX_SCALE as nat);
}

/// Whether `c` is a decimal digit.
pub open spec fn is_digit(c: char) -> bool {
    48 <= c as u32 <= 57
}

/// The numeric value of a digit character.
pub open spec fn digit_val(c: char) -> nat {
    (c as u32 - 48) as nat
}

/// Whether every character of `s` is a decimal digit.
pub open spec fn all_digits(s: Seq<char>) -> bool {
    forall|i: int| 0 <= i < s.len() ==> is_digit(#[trigger] s[i])
}

/// The value of a digit string read in base ten (0 for the empty string).
pub open spec fn digits_val(s: Seq<char>) -> nat
    decreases s.len(),
{
    if s.len() == 0 {
        0
    } else {
        digits_val(s.drop_last()) * 10 + digit_val(s.last())
    }
}

/// Index of the first `'.'` in `s`, or -1 if there is none.
pub open spec fn find_dot(s: Seq<char>) -> int
    decreases s.len(),
{
    if s.len() == 0 {
        -1
    } else if s[0] == '.' {
        0
    } else {
        let r = find_dot(s.drop_first());
        if r < 0 {
            -1
        } else {
            r + 1
        }
    }
}

/// Whether `s` starts with an explicit sign.
pub open spec fn has_sign(s: Seq<char>) -> bool {
    s.len() > 0 && (s[0] == '-' || s[0] == '+')
}

/// Whether `s` denotes a negative amount.
pub open spec fn neg_of(s: Seq<char>) -> bool {
    s.len() > 0 && s[0] == '-'
}

/// `s` with an explicit sign stripped.
pub open spec fn body_chars(s: Seq<char>) -> Seq<char> {
    if has_sign(s) {
        s.drop_first()
    } else {
        s
    }
}

/// The mantissa and scale denoted by an unsigned decimal numeral: digits,
/// optionally followed by a point and at least one more digit.  `None` when
/// `b` does not have that shape.
pub open spec fn parse_body(b: Seq<char>) -> Option<(nat, nat)> {
    let k = find_dot(b);
    if k < 0 {
        if b.len() >= 1 && all_digits(b) {
            Some((digits_val(b), 0))
        } else {
            None
        }
    } else {
        let ip = b.take(k);
        let fp = b.skip(k + 1);
        if ip.len() >= 1 && fp.len() >= 1 && all_digits(ip) && all_digits(fp) {
            Some(((digits_val(ip) * ten_pow(fp.len()) + digits_val(fp)) as nat, fp.len()))
        } else {
            None
        }
    }
}

/// The sign, mantissa and scale denoted by a decimal numeral with an
/// optional sign; `None` when the text is malformed or the amount cannot be
/// represented.
pub open spec fn parse_chars(s: Seq<char>) -> Option<(bool, nat, nat)> {
    match parse_body(body_chars(s)) {
        Some((m, sc)) => {
            if sc <= MAX_SCALE as nat && (((m * ten_pow((MAX_SCALE as nat - sc) as nat)) as int)
                < UNITS_BOUND as int) {
                Some((neg_of(s), m, sc))
            } else {
                None
            }
        },
        None => None,
    }
}

/// `find_dot` returns the first dot, if any.
proof fn lemma_find_dot_spec(s: Seq<char>)
    ensures
        find_dot(s) == -1 ==> (forall|i: int| 0 <= i < s.len() ==> s[i] != '.'),
        find_dot(s) >= 0 ==> {
            &&& find_dot(s) < s.len()
            &&& s[find_dot(s)] == '.'
            &&& forall|i: int| 0 <= i < find_dot(s) ==> s[i] != '.'
        },
    decreases s.len(),
{
    if s.len() == 0 {
    } else if s[0] == '.' {
    } else {
        lemma_find_dot_spec(s.drop_first());
        assert forall|i: int| 1 <= i < s.len() implies s.drop_first()[i - 1] == s[i] by {}
    }
}

/// `find_dot` finds a dot whose prefix is dot-free.
proof fn lemma_find_dot_at(s: Seq<char>, j: int)
    requires
        0 <= j < s.len(),
        s[j] == '.',
        forall|i: int| 0 <= i < j ==> s[i] != '.',
    ensures
        find_dot(s) == j,
    decreases s.len(),
{
    if j == 0 {
    } else {
        assert(s[0] != '.');
        lemma_find_dot_at(s.drop_first(), j - 1);
    }
}

/// With no dot anywhere, `find_dot` reports -1.
proof fn lemma_find_dot_none(s: Seq<char>)
    requires
        forall|i: int| 0 <= i < s.len() ==> s[i] != '.',
    ensures
        find_dot(s) == -1,
    decreases s.len(),
{
    if s.len() > 0 {
        lemma_find_dot_none(s.drop_first());
    }
}

/// Reading one more digit multiplies the value by ten and adds the digit.
proof fn lemma_digits_val_step(s: Seq<char>, j: int)
    requires
        0 <= j < s.len(),
    ensures
        digits_val(s.take(j + 1)) == digits_val(s.take(j)) * 10 + digit_val(s[j]),
{
    assert(s.take(j + 1).drop_last() =~= s.take(j));
    assert(s.take(j + 1).last() == s[j]);
}

/// The value of a digit-string prefix never exceeds the whole string's value.
proof fn lemma_digits_val_prefix_le(s: Seq<char>, j: int)
    requires
        0 <= j <= s.len(),
    ensures
        digits_val(s.take(j)) <= digits_val(s),
    decreases s.len() - j,
{
    if j == s.len() {
        assert(s.take(j) =~= s);
    } else {
        lemma_digits_val_step(s, j);
        lemma_digits_val_prefix_le(s, j + 1);
    }
}

/// Concatenating digit strings: the left part is shifted by the length of
/// the right part.
proof fn lemma_digits_val_concat(a: Seq<char>, b: Seq<char>)
    ensures
        digits_val(a + b) == digits_val(a) * ten_pow(b.len()) + digits_val(b),
    decreases b.len(),
{
    if b.len() == 0 {
        assert(a + b =~= a);
        assert(ten_pow(0) == 1);
        assert(digits_val(a) * 1 == digits_val(a));
    } else {
        let b0 = b.drop_last();
        lemma_digits_val_concat(a, b0);
        assert((a + b).drop_last() =~= a + b0);
        assert((a + b).last() == b.last());
        let da = digits_val(a) as int;
        let db0 = digits_val(b0) as int;
        let p0 = ten_pow(b0.len()) as int;
        let dl = digit_val(b.last()) as int;
        assert(digits_val(a + b) == digits_val(a + b0) * 10 + digit_val((a + b).last()));
        assert(digits_val(b) == db0 * 10 + dl);
        assert(ten_pow(b.len()) == 10 * ten_pow(b0.len()));
        assert((da * p0 + db0) * 10 == da * (10 * p0) + db0 * 10) by (nonlinear_arith);
        assert(digits_val(a + b) == da * (10 * p0) + db0 * 10 + dl);
        assert(digits_val(a) * ten_pow(b.len()) == da * (10 * p0)) by (nonlinear_arith)
            requires
                ten_pow(b.len()) == 10 * ten_pow(b0.len()),
                da == digits_val(a) as int,
                p0 == ten_pow(b0.len()) as int,
        ;
    }
}

/// A mantissa never exceeds the units it denotes.
proof fn lemma_mantissa_le_units(m: nat, sc: nat)
    requires
        sc <= MAX_SCALE as nat,
    ensures
        m <= m * ten_pow((MAX_SCALE as nat - sc) as nat),
{
    lemma_ten_pow_pos((MAX_SCALE as nat - sc) as nat);
    if m > 0 {
        lemma_mul_increases(ten_pow((MAX_SCALE as nat - sc) as nat) as int, m as int);
        lemma_mul_is_commutative(m as int, ten_pow((MAX_SCALE as nat - sc) as nat) as int);
    }
}

impl Decimal {
    /// Parse a decimal numeral: optional sign, integer digits, optionally a
    /// point and 1 to `MAX_SCALE` fractional digits.  Returns the sign and
    /// the magnitude; `None` exactly when the text is malformed or the
    /// amount cannot be represented.
    pub fn parse(s: &str) -> (r: Option<(bool, Decimal)>)
        ensures
            match r {
                Some(p) => {
                    &&& p.1.wf()
                    &&& parse_chars(s@) == Some((p.0, p.1.mantissa as nat, p.1.scale as nat))
                },
                None => parse_chars(s@) is None,
            },
    {
        let n = s.unicode_len();
        let mut i: usize = 0;
        let mut neg = false;
        if n > 0 {
            let c0 = s.get_char(0);
            if c0 == '-' {
                neg = true;
                i = 1;
            } else if c0 == '+' {
                i = 1;
            }
        }
        let ghost b = body_chars(s@);
        proof {
            assert(b =~= s@.skip(i as int));
        }
        if i >= n {
            return None;
        }
        let mut m: u128 = 0;
        let mut seen_dot = false;
        let mut dotj: usize = 0;
        let mut j: usize = i;
        while j < n
            invariant
                n == s@.len(),
                i <= j <= n,
                i < n,
                i <= 1,
                b == body_chars(s@),
                b =~= s@.skip(i as int),
                m < UNITS_BOUND,
                !seen_dot ==> {
                    &&& forall|t: int| 0 <= t < j - i ==> is_digit(#[trigger] b[t])
                    &&& m == digits_val(b.take(j - i))
                },
                seen_dot ==> {
                    &&& i <= dotj < j
                    &&& dotj > i
                    &&& n - dotj - 1 <= MAX_SCALE
                    &&& b[dotj - i] == '.'
                    &&& forall|t: int| 0 <= t < dotj - i ==> is_digit(#[trigger] b[t])
                    &&& forall|t: int| dotj - i < t < j - i ==> is_digit(#[trigger] b[t])
                    &&& m == digits_val(b.take(dotj - i) + b.subrange(dotj - i + 1, j - i))
                },
            decreases n - j,
        {
            let c = s.get_char(j);
            let u = c as u32;
            if 48 <= u && u <= 57 {
                proof {
                    assert(b[j - i] == s@[j as int]);
                    assert(is_digit(b[j - i]));
                    if !seen_dot {
                        lemma_digits_val_step(b, j - i);
                    } else {
                        let ds = b.take(dotj - i) + b.subrange(dotj - i + 1, j - i);
                        let ds2 = b.take(dotj - i) + b.subrange(dotj - i + 1, j - i + 1);
                        assert(ds2.drop_last() =~= ds);
                        assert(ds2.last() == b[j - i]);
                    }
                }
                m = m * 10 + ((u - 48) as u128);
                if m >= UNITS_BOUND {
                    proof {
                        lemma_parse_none_when_large(b, j - i + 1, if seen_dot {
                            dotj - i
                        } else {
                            -1
                        }, m as nat);
                        if parse_body(b) is Some {
                            let p = parse_body(b)->Some_0;
                            if p.1 <= MAX_SCALE as nat {
                                lemma_mantissa_le_units(p.0, p.1);
                            }
                        }
                        assert(parse_chars(s@) is None);
                    }
                    return None;
                }
                j = j + 1;
            } else if c == '.' && !seen_dot {
                proof {
                    assert(b[j - i] == s@[j as int]);
                }
                if j == i {
                    proof {
                        lemma_find_dot_at(b, 0);
                        assert(b.take(0).len() == 0);
                        assert(parse_body(b) is None);
                    }
                    return None;
                }
                if n - j - 1 > 14 {
                    proof {
                        lemma_find_dot_at(b, j - i);
                        if parse_body(b) is Some {
                            assert(b.skip(j - i + 1).len() > MAX_SCALE);
                        }
                    }
                    return None;
                }
                seen_dot = true;
                dotj = j;
                j = j + 1;
                proof {
                    assert(b.take(dotj - i) + b.subrange(dotj - i + 1, j - i) =~= b.take(
                        dotj - i,
                    ));
                }
            } else {
                proof {
                    assert(b[j - i] == s@[j as int]);
                    assert(!is_digit(b[j - i]));
                    if !seen_dot {
                        assert(b[j - i] != '.');
                        lemma_parse_body_none_at(b, j - i);
                    } else {
                        lemma_find_dot_at(b, dotj - i);
                        let fp = b.skip(dotj - i + 1);
                        assert(fp[j - i - (dotj - i) - 1] == b[j - i]);
                        assert(!all_digits(fp));
                        assert(parse_body(b) is None);
                    }
                }
                return None;
            }
        }
        if !seen_dot {
            proof {
                assert(b.take(j - i) =~= b);
                assert(forall|t: int| 0 <= t < b.len() ==> is_digit(#[trigger] b[t]));
                lemma_no_dot_among_digits(b);
                lemma_find_dot_none(b);
            }
            if units_within_bound(m, 0) {
                let d = Decimal { mantissa: m, scale: 0 };
                proof {
                    lemma_ten_pow_pos(MAX_SCALE as nat);
                }
                return Some((neg, d));
            } else {
                return None;
            }
        }
        if dotj + 1 == n {
            proof {
                lemma_find_dot_at(b, dotj - i);
                assert(b.skip(dotj - i + 1).len() == 0);
                assert(parse_body(b) is None);
            }
            return None;
        }
        let sc = (n - dotj - 1) as u32;
        proof {
            let ip = b.take(dotj - i);
            let fp = b.skip(dotj - i + 1);
            lemma_no_dot_among_digits(ip);
            lemma_find_dot_at(b, dotj - i);
            assert(b.subrange(dotj - i + 1, j - i) =~= fp);
            lemma_digits_val_concat(ip, fp);
            assert(fp.len() == sc as nat);
            assert(parse_body(b) == Some(((digits_val(ip) * ten_pow(fp.len()) + digits_val(
                fp,
            )) as nat, fp.len())));
        }
        if units_within_bound(m, sc) {
            let d = Decimal { mantissa: m, scale: sc };
            Some((neg, d))
        } else {
            None
        }
    }
}

/// Digits are never dots.
proof fn lemma_no_dot_among_digits(s: Seq<char>)
    requires
        all_digits(s),
    ensures
        forall|i: int| 0 <= i < s.len() ==> s[i] != '.',
{
    assert forall|i: int| 0 <= i < s.len() implies s[i] != '.' by {
        assert(is_digit(s[i]));
        assert('.' as u32 == 46);
    }
}

/// A well-placed non-digit, non-dot character makes the numeral malformed.
proof fn lemma_parse_body_none_at(b: Seq<char>, j: int)
    requires
        0 <= j < b.len(),
        forall|i: int| 0 <= i < j ==> is_digit(#[trigger] b[i]),
        !is_digit(b[j]),
        b[j] != '.',
    ensures
        parse_body(b) is None,
{
    let k = find_dot(b);
    lemma_find_dot_spec(b);
    if k < 0 {
        assert(!all_digits(b));
    } else {
        assert(b[k] == '.');
        if k < j {
            assert(is_digit(b[k]));
            assert('.' as u32 == 46);
            assert(false);
        } else if k == j {
            assert(false);
        } else {
            let ip = b.take(k);
            assert(ip[j] == b[j]);
            assert(!all_digits(ip));
        }
    }
}

/// Once the digits read so far already reach `UNITS_BOUND`, the numeral,
/// whatever follows, denotes nothing representable.
proof fn lemma_parse_none_when_large(b: Seq<char>, cur: int, dotrel: int, m: nat)
    requires
        0 <= cur <= b.len(),
        dotrel < cur,
        m >= UNITS_BOUND,
        dotrel < 0 ==> m == digits_val(b.take(cur)) && (forall|i: int|
            0 <= i < cur ==> is_digit(#[trigger] b[i])),
        dotrel >= 0 ==> {
            &&& 0 <= dotrel < b.len()
            &&& b[dotrel] == '.'
            &&& forall|i: int| 0 <= i < dotrel ==> is_digit(#[trigger] b[i])
            &&& m == digits_val(b.take(dotrel) + b.subrange(dotrel + 1, cur))
        },
    ensures
        parse_body(b) matches Some(p) ==> p.0 >= UNITS_BOUND,
{
    if parse_body(b) is Some {
        let k = find_dot(b);
        lemma_find_dot_spec(b);
        if k < 0 {
            // whole body is digits; m is the value of a prefix
            lemma_digits_val_prefix_le(b, cur);
        } else {
            let ip = b.take(k);
            let fp = b.skip(k + 1);
            let whole = ip + fp;
            lemma_digits_val_concat(ip, fp);
            lemma_ten_pow_pos(fp.len());
            if digits_val(ip) > 0 {
                lemma_mul_increases(ten_pow(fp.len()) as int, digits_val(ip) as int);
                lemma_mul_is_commutative(digits_val(ip) as int, ten_pow(fp.len()) as int);
            }
            assert(digits_val(whole) >= digits_val(ip)) by {
                lemma_digits_val_prefix_le(whole, ip.len() as int);
                assert(whole.take(ip.len() as int) =~= ip);
            }
            if dotrel < 0 {
                // m comes from a prefix of the integer part
                assert(cur <= k) by {
                    if cur > k {
                        assert(b.take(cur)[k] == b[k]);
                        assert(is_digit(b[k]));
                        assert('.' as u32 == 46);
                    }
                }
                lemma_digits_val_prefix_le(ip, cur);
                assert(ip.take(cur) =~= b.take(cur));
            } else {
                // the dot seen in the scan is the first dot
                lemma_no_dot_among_digits(b.take(dotrel));
                assert(forall|i: int|
                    0 <= i < dotrel ==> #[trigger] b.take(dotrel)[i] == b[i]);
                lemma_find_dot_at(b, dotrel);
                assert(k == dotrel);
                let ds = b.take(dotrel) + b.subrange(dotrel + 1, cur);
                assert(ds =~= whole.take(ds.len() as int));
                lemma_digits_val_prefix_le(whole, ds.len() as int);
            }
        }
    }
}

/// The minimal exact representation of a mantissa/scale pair: trailing
/// zero digits move into the scale; zero normalizes to scale 0.
pub open spec fn norm(m: nat, s: nat) -> (nat, nat)
    decreases s,
{
    if m == 0 {
        (0, 0)
    } else if s == 0 || m % 10 != 0 {
        (m, s)
    } else {
        norm(m / 10, (s - 1) as nat)
    }
}

impl Decimal {
    /// The same value at its minimal exact scale.
    pub fn normalize(&self) -> (r: Decimal)
        requires
            self.wf(),
        ensures
            r.wf(),
            r.units() == self.units(),
            (r.mantissa as nat, r.scale as nat) == norm(self.mantissa as nat, self.scale as nat),
    {
        if self.mantissa == 0 {
            return Decimal { mantissa: 0, scale: 0 };
        }
        let mut m = self.mantissa;
        let mut s = self.scale;
        proof {
            self.lemma_units_bounds_mantissa_pub();
        }
        while s > 0 && m % 10 == 0
            invariant
                m > 0,
                s <= MAX_SCALE,
                norm(m as nat, s as nat) == norm(
                    self.mantissa as nat,
                    self.scale as nat,
                ),
                m as int * ten_pow((MAX_SCALE - s) as nat) as int == self.units(),
                self.units() < UNITS_BOUND as int,
            decreases s,
        {
            proof {
                let p = ten_pow((MAX_SCALE - s) as nat) as int;
                assert(ten_pow((MAX_SCALE - s + 1) as nat) == 10 * ten_pow(
                    (MAX_SCALE - s) as nat,
                ));
                assert(m as int == 10 * (m as int / 10));
                lemma_mul_is_associative(m as int / 10, 10, p);
            }
            m = m / 10;
            s = s - 1;
        }
        Decimal { mantissa: m, scale: s }
    }
}

} // verus!
