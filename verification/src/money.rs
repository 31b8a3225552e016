//! Amounts of money, written as the platforms and the database write them:
//! decimal text such as `"12.345"`. The arithmetic is rust_decimal's; the
//! library adds amounts up, converts points and decides what to show.

use rust_decimal::Decimal;
use std::str::FromStr;
use vstd::prelude::*;

verus! {

/// The text of `Decimal::from_str(a).unwrap_or_default()` plus
/// `Decimal::from_str(b).unwrap_or_default()`, as `to_string` writes it, or
/// `None` when `checked_add` overflows.
pub uninterp spec fn amount_sum(a: Seq<char>, b: Seq<char>) -> Option<Seq<char>>;

/// The text of `Decimal::from(n)` times `Decimal::from_str(unit).unwrap_or_default()`,
/// as `to_string` writes it, or `None` when `checked_mul` overflows.
pub uninterp spec fn amount_product(n: i64, unit: Seq<char>) -> Option<Seq<char>>;

/// `Decimal::from_str(a).unwrap_or_default().is_zero()`.
pub uninterp spec fn amount_zero(a: Seq<char>) -> bool;

/// `Decimal::from_str(a).unwrap_or_default().normalize().to_string()`: the
/// amount without trailing zeros.
pub uninterp spec fn amount_normal(a: Seq<char>) -> Seq<char>;

/// `Decimal::from_str(a).unwrap_or_default().to_string()`: the amount as
/// rust_decimal writes it back, trailing zeros kept.
pub uninterp spec fn amount_written(a: Seq<char>) -> Seq<char>;

/// The mantissa `m` and the scale `e` of the amount read with
/// `Decimal::from_str(a).unwrap_or_default()`: rust_decimal's values are
/// `m / 10^e`, with `-2^96 < m < 2^96` and `e` at most 28.
pub uninterp spec fn amount_parts(a: Seq<char>) -> (i128, u32);

/// `Decimal::from_str(a).ok().map(|d| d.to_string())`: the amount as
/// rust_decimal reads and writes it back, or `None` when it does not read.
pub uninterp spec fn amount_read(a: Seq<char>) -> Option<Seq<char>>;

/// `Decimal::from_str` on an amount, written back with `to_string`; `None`
/// when rust_decimal does not read it. The contract names the result.
#[verifier::external_body]
pub(crate) fn read_amount(a: &str) -> (r: Option<String>)
    ensures
        match amount_read(a@) {
            Some(t) => r matches Some(x) && x@ == t,
            None => r is None,
        },
{
    Decimal::from_str(a).ok().map(|d| d.to_string())
}

/// `Decimal::checked_add` on two amounts read with `Decimal::from_str`, an
/// amount that does not read counting as zero. The contract names the result.
#[verifier::external_body]
pub(crate) fn add_amounts(a: &str, b: &str) -> (r: Option<String>)
    ensures
        match amount_sum(a@, b@) {
            Some(t) => r matches Some(x) && x@ == t,
            None => r is None,
        },
{
    let x = Decimal::from_str(a).unwrap_or_default();
    let y = Decimal::from_str(b).unwrap_or_default();
    x.checked_add(y).map(|s| s.to_string())
}

/// `Decimal::checked_mul` of a whole number by an amount read with
/// `Decimal::from_str`. The contract names the result.
#[verifier::external_body]
pub(crate) fn multiply_amount(n: i64, unit: &str) -> (r: Option<String>)
    ensures
        match amount_product(n, unit@) {
            Some(t) => r matches Some(x) && x@ == t,
            None => r is None,
        },
{
    let u = Decimal::from_str(unit).unwrap_or_default();
    Decimal::from(n).checked_mul(u).map(|s| s.to_string())
}

/// `Decimal::is_zero` on an amount read with `Decimal::from_str`.
#[verifier::external_body]
pub(crate) fn is_zero_amount(a: &str) -> (r: bool)
    ensures
        r == amount_zero(a@),
{
    Decimal::from_str(a).unwrap_or_default().is_zero()
}

/// `Decimal::normalize` on an amount read with `Decimal::from_str`, written
/// back with `to_string`.
#[verifier::external_body]
pub(crate) fn normalize_amount(a: &str) -> (r: String)
    ensures
        r@ == amount_normal(a@),
{
    Decimal::from_str(a).unwrap_or_default().normalize().to_string()
}

/// An amount read with `Decimal::from_str` and written back with `to_string`.
#[verifier::external_body]
pub(crate) fn write_amount(a: &str) -> (r: String)
    ensures
        r@ == amount_written(a@),
{
    Decimal::from_str(a).unwrap_or_default().to_string()
}

/// `<` between two amounts read with `Decimal::from_str`: rust_decimal
/// orders its values by number, `m1 / 10^e1` against `m2 / 10^e2`.
#[verifier::external_body]
pub(crate) fn below_amount(a: &str, b: &str) -> (r: bool)
    ensures
        r == value_below(amount_parts(a@), amount_parts(b@)),
{
    Decimal::from_str(a).unwrap_or_default() < Decimal::from_str(b).unwrap_or_default()
}

pub open spec fn pow10(e: nat) -> int
    decreases e,
{
    if e == 0 {
        1
    } else {
        10 * pow10((e - 1) as nat)
    }
}

pub proof fn lemma_pow10_positive(e: nat)
    ensures
        pow10(e) > 0,
    decreases e,
{
    if e > 0 {
        lemma_pow10_positive((e - 1) as nat);
    }
}

/// The number `m1 / 10^e1` is below `m2 / 10^e2`.
pub open spec fn value_below(p: (i128, u32), q: (i128, u32)) -> bool {
    p.0 * pow10(q.1 as nat) < q.0 * pow10(p.1 as nat)
}

/// The two numbers are equal, whatever their scales.
pub open spec fn same_value(p: (i128, u32), q: (i128, u32)) -> bool {
    p.0 * pow10(q.1 as nat) == q.0 * pow10(p.1 as nat)
}

/// The order of numbers: strict, transitive, and equality of value is an
/// equivalence that it respects.
pub proof fn lemma_value_order(a: (i128, u32), b: (i128, u32), c: (i128, u32))
    ensures
        !value_below(a, a),
        same_value(a, a),
        same_value(a, b) <==> (!value_below(a, b) && !value_below(b, a)),
        same_value(a, b) ==> same_value(b, a),
        value_below(a, b) && value_below(b, c) ==> value_below(a, c),
        same_value(a, b) && same_value(b, c) ==> same_value(a, c),
        value_below(a, b) && same_value(b, c) ==> value_below(a, c),
        same_value(a, b) && value_below(b, c) ==> value_below(a, c),
{
    lemma_pow10_positive(a.1 as nat);
    lemma_pow10_positive(b.1 as nat);
    lemma_pow10_positive(c.1 as nat);
    let x = a.0 as int;
    let y = b.0 as int;
    let z = c.0 as int;
    let pa = pow10(a.1 as nat);
    let pb = pow10(b.1 as nat);
    let pc = pow10(c.1 as nat);
    assert(x * pb < y * pa && y * pc < z * pb ==> x * pc < z * pa) by (nonlinear_arith)
        requires
            pa > 0,
            pb > 0,
            pc > 0,
    ;
    assert(x * pb == y * pa && y * pc == z * pb ==> x * pc == z * pa) by (nonlinear_arith)
        requires
            pa > 0,
            pb > 0,
            pc > 0,
    ;
    assert(x * pb < y * pa && y * pc == z * pb ==> x * pc < z * pa) by (nonlinear_arith)
        requires
            pa > 0,
            pb > 0,
            pc > 0,
    ;
    assert(x * pb == y * pa && y * pc < z * pb ==> x * pc < z * pa) by (nonlinear_arith)
        requires
            pa > 0,
            pb > 0,
            pc > 0,
    ;
}

/// The text of zero, where a sum starts.
pub open spec fn zero_text() -> Seq<char> {
    "0"@
}

/// Dollar value of one CurseForge point, as its reward programme publishes it.
pub open spec fn point_value_text() -> Seq<char> {
    "0.05"@
}

pub fn point_value() -> (r: &'static str)
    ensures
        r@ == point_value_text(),
{
    "0.05"
}

/// The sum of the amounts in order, starting from zero, or `None` as soon as
/// one addition overflows.
pub open spec fn amount_total(amounts: Seq<Seq<char>>) -> Option<Seq<char>>
    decreases amounts.len(),
{
    if amounts.len() == 0 {
        Some(zero_text())
    } else {
        match amount_total(amounts.drop_last()) {
            Some(t) => amount_sum(t, amounts.last()),
            None => None,
        }
    }
}

pub fn zero_amount() -> (r: String)
    ensures
        r@ == zero_text(),
{
    proof {
        reveal_strlit("0");
    }
    "0".to_string()
}

/// Adds the amounts up in order; an amount that does not read counts as zero.
pub fn total_amount(amounts: &Vec<String>) -> (r: Option<String>)
    ensures
        match amount_total(amounts.deep_view()) {
            Some(t) => r matches Some(x) && x@ == t,
            None => r is None,
        },
{
    let ghost all = amounts.deep_view();
    let mut total = zero_amount();
    let mut k: usize = 0;
    assert(all.take(0) =~= Seq::<Seq<char>>::empty());
    while k < amounts.len()
        invariant
            k <= amounts@.len(),
            all == amounts.deep_view(),
            amount_total(all.take(k as int)) == Some(total@),
        decreases amounts@.len() - k,
    {
        proof {
            assert(all.take(k + 1).drop_last() =~= all.take(k as int));
            assert(all.take(k + 1).last() == amounts@[k as int]@);
        }
        match add_amounts(total.as_str(), amounts[k].as_str()) {
            Some(t) => {
                total = t;
            },
            None => {
                proof {
                    lemma_total_stays_none(all, k as int + 1);
                    assert(all.take(all.len() as int) =~= all);
                }
                return None;
            },
        }
        k = k + 1;
    }
    proof {
        assert(all.take(k as int) =~= all);
    }
    Some(total)
}

/// Once a prefix overflows, every longer prefix does too.
proof fn lemma_total_stays_none(all: Seq<Seq<char>>, k: int)
    requires
        0 <= k <= all.len(),
        amount_total(all.take(k)) is None,
    ensures
        amount_total(all) is None,
    decreases all.len() - k,
{
    if k < all.len() {
        assert(all.take(k + 1).drop_last() =~= all.take(k));
        lemma_total_stays_none(all, k + 1);
    } else {
        assert(all.take(k) =~= all);
    }
}

} // verus!
