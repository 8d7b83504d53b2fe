//! The calculator's operations over decimal values, and their dispatch.
use crate::decimal::{
    add_model, all_digits, digits_val, lemma_digits_bound, lemma_digits_concat,
    lemma_mul_same_value, lemma_pow10_add, lemma_pow10_pos, lemma_same_value_trans, max_scale,
    mul_model, pow10, pow_model, raw_model, rem_model, same_value, signed_val, sub_model, Decimal,
    ROUNDED_SCALE_MAX, SCALE_MAX,
};
use vstd::arithmetic::div_mod::lemma_fundamental_div_mod_converse;
use bigdecimal::BigDecimal;
use bigdecimal::num_bigint::{BigInt, Sign};
use vstd::prelude::*;

verus! {

/// The ways an operation can fail.
#[derive(Debug, Clone, Copy, PartialEq, Eq, Structural)]
pub enum CalcError {
    /// The text is not a decimal literal.
    ParseError,
    /// Division or remainder by zero.
    DivisionByZero,
    /// Square root of a negative number.
    NegativeRadicand,
    /// Power with a fractional or negative exponent.
    InvalidExponent,
    /// The arithmetic back end gave no result, or the result's size or scale
    /// is past a machine limit.
    ComputationError,
}

/// What the back end returns for the quotient of two (unscaled, scale)
/// pairs: a result rounded to its default precision, as (unscaled, exponent).
pub uninterp spec fn quotient_of(a: (int, int), b: (int, int)) -> (int, int);

/// What the back end returns for the square root of an (unscaled, scale)
/// pair: a result rounded to its default precision, as (unscaled, exponent).
pub uninterp spec fn root_of(a: (int, int)) -> (int, int);

/// The (unscaled, scale) pair of a value, as the back end holds it.
pub open spec fn back_end_view(a: Decimal) -> (int, int) {
    (a@.0, a@.1 as int)
}

/// Relies on `&BigDecimal + &BigDecimal`: the sum is exact.
/// Operands and result cross as base-ten digits through `BigInt::from_radix_be`
/// and `BigInt::to_radix_be`, whose digits are below the radix.
#[verifier::external_body]
fn big_sum(a: &Decimal, b: &Decimal) -> (r: (bool, Vec<u8>, i64))
    requires
        a.wf(),
        b.wf(),
    ensures
        all_digits(r.1@),
        same_value(raw_model(signed_val(r.0, r.1@), r.2 as int), add_model(a@, b@)),
{
    let x = BigDecimal::new(BigInt::from_radix_be(if a.negative { Sign::Minus } else { Sign::Plus }, &a.digits, 10).unwrap(), a.scale as i64);
    let y = BigDecimal::new(BigInt::from_radix_be(if b.negative { Sign::Minus } else { Sign::Plus }, &b.digits, 10).unwrap(), b.scale as i64);
    let (i, s) = (&x + &y).into_bigint_and_exponent();
    let (g, d) = i.to_radix_be(10);
    (g == Sign::Minus, d, s)
}

/// Relies on `&BigDecimal - &BigDecimal`: the difference is exact.
/// Operands and result cross as base-ten digits through `BigInt::from_radix_be`
/// and `BigInt::to_radix_be`, whose digits are below the radix.
#[verifier::external_body]
fn big_difference(a: &Decimal, b: &Decimal) -> (r: (bool, Vec<u8>, i64))
    requires
        a.wf(),
        b.wf(),
    ensures
        all_digits(r.1@),
        same_value(raw_model(signed_val(r.0, r.1@), r.2 as int), sub_model(a@, b@)),
{
    let x = BigDecimal::new(BigInt::from_radix_be(if a.negative { Sign::Minus } else { Sign::Plus }, &a.digits, 10).unwrap(), a.scale as i64);
    let y = BigDecimal::new(BigInt::from_radix_be(if b.negative { Sign::Minus } else { Sign::Plus }, &b.digits, 10).unwrap(), b.scale as i64);
    let (i, s) = (&x - &y).into_bigint_and_exponent();
    let (g, d) = i.to_radix_be(10);
    (g == Sign::Minus, d, s)
}

/// Relies on `&BigDecimal * &BigDecimal`: the product is exact, and its scale
/// is the sum of the scales, or less where an operand is one and the other is
/// normalized.
/// Operands and result cross as base-ten digits through `BigInt::from_radix_be`
/// and `BigInt::to_radix_be`, whose digits are below the radix.
#[verifier::external_body]
fn big_product(a: &Decimal, b: &Decimal) -> (r: (bool, Vec<u8>, i64))
    requires
        a.wf(),
        b.wf(),
        a.scale + b.scale <= SCALE_MAX,
    ensures
        all_digits(r.1@),
        r.2 <= a.scale + b.scale,
        same_value(raw_model(signed_val(r.0, r.1@), r.2 as int), mul_model(a@, b@)),
{
    let x = BigDecimal::new(BigInt::from_radix_be(if a.negative { Sign::Minus } else { Sign::Plus }, &a.digits, 10).unwrap(), a.scale as i64);
    let y = BigDecimal::new(BigInt::from_radix_be(if b.negative { Sign::Minus } else { Sign::Plus }, &b.digits, 10).unwrap(), b.scale as i64);
    let (i, s) = (&x * &y).into_bigint_and_exponent();
    let (g, d) = i.to_radix_be(10);
    (g == Sign::Minus, d, s)
}

/// Relies on `&BigDecimal / &BigDecimal`, which panics on a zero divisor and
/// otherwise rounds the quotient to the crate's default precision.
/// Operands and result cross as base-ten digits through `BigInt::from_radix_be`
/// and `BigInt::to_radix_be`, whose digits are below the radix.
#[verifier::external_body]
fn big_quotient(a: &Decimal, b: &Decimal) -> (r: (bool, Vec<u8>, i64))
    requires
        a.wf(),
        b.wf(),
        a.scale <= ROUNDED_SCALE_MAX,
        b.scale <= ROUNDED_SCALE_MAX,
        b@.0 != 0,
    ensures
        all_digits(r.1@),
        (signed_val(r.0, r.1@), r.2 as int) == quotient_of(back_end_view(*a), back_end_view(*b)),
{
    let x = BigDecimal::new(BigInt::from_radix_be(if a.negative { Sign::Minus } else { Sign::Plus }, &a.digits, 10).unwrap(), a.scale as i64);
    let y = BigDecimal::new(BigInt::from_radix_be(if b.negative { Sign::Minus } else { Sign::Plus }, &b.digits, 10).unwrap(), b.scale as i64);
    let (i, s) = (&x / &y).into_bigint_and_exponent();
    let (g, d) = i.to_radix_be(10);
    (g == Sign::Minus, d, s)
}

/// Relies on `&BigDecimal % &BigDecimal`: both unscaled integers are brought
/// to the larger scale and `BigInt`'s truncating `%` is taken; the result has
/// that scale.
/// Operands and result cross as base-ten digits through `BigInt::from_radix_be`
/// and `BigInt::to_radix_be`, whose digits are below the radix.
#[verifier::external_body]
fn big_remainder(a: &Decimal, b: &Decimal) -> (r: (bool, Vec<u8>, i64))
    requires
        a.wf(),
        b.wf(),
        b@.0 != 0,
    ensures
        all_digits(r.1@),
        signed_val(r.0, r.1@) == rem_model(a@, b@).0,
        r.2 as int == rem_model(a@, b@).1,
{
    let x = BigDecimal::new(BigInt::from_radix_be(if a.negative { Sign::Minus } else { Sign::Plus }, &a.digits, 10).unwrap(), a.scale as i64);
    let y = BigDecimal::new(BigInt::from_radix_be(if b.negative { Sign::Minus } else { Sign::Plus }, &b.digits, 10).unwrap(), b.scale as i64);
    let (i, s) = (&x % &y).into_bigint_and_exponent();
    let (g, d) = i.to_radix_be(10);
    (g == Sign::Minus, d, s)
}

/// Relies on `BigDecimal::sqrt`: `None` for a negative value, otherwise the
/// non-negative root rounded to the crate's default precision.
/// Operands and result cross as base-ten digits through `BigInt::from_radix_be`
/// and `BigInt::to_radix_be`, whose digits are below the radix.
#[verifier::external_body]
fn big_root(a: &Decimal) -> (r: Option<(bool, Vec<u8>, i64)>)
    requires
        a.wf(),
        a.scale <= ROUNDED_SCALE_MAX,
    ensures
        a@.0 >= 0 ==> r is Some,
        r matches Some(t) ==> all_digits(t.1@) && signed_val(t.0, t.1@) >= 0 && (
        signed_val(t.0, t.1@), t.2 as int) == root_of(back_end_view(*a)),
{
    let x = BigDecimal::new(BigInt::from_radix_be(if a.negative { Sign::Minus } else { Sign::Plus }, &a.digits, 10).unwrap(), a.scale as i64);
    let (i, s) = x.sqrt()?.into_bigint_and_exponent();
    let (g, d) = i.to_radix_be(10);
    Some((g == Sign::Minus, d, s))
}

/// `a + b`, exactly.
pub fn sum(a: &Decimal, b: &Decimal) -> (r: Decimal)
    requires
        a.wf(),
        b.wf(),
    ensures
        r.wf(),
        r.scale >= max_scale(a.scale as nat, b.scale as nat),
        same_value(r@, add_model(a@, b@)),
{
    let (n, d, e) = big_sum(a, b);
    let raw = Decimal::from_parts(n, d, e);
    let r = raw.with_scale_at_least(if a.scale >= b.scale { a.scale } else { b.scale });
    proof {
        lemma_same_value_trans(r@, raw@, add_model(a@, b@));
    }
    r
}

/// `a - b`, exactly.
pub fn difference(a: &Decimal, b: &Decimal) -> (r: Decimal)
    requires
        a.wf(),
        b.wf(),
    ensures
        r.wf(),
        r.scale >= max_scale(a.scale as nat, b.scale as nat),
        same_value(r@, sub_model(a@, b@)),
{
    let (n, d, e) = big_difference(a, b);
    let raw = Decimal::from_parts(n, d, e);
    let r = raw.with_scale_at_least(if a.scale >= b.scale { a.scale } else { b.scale });
    proof {
        lemma_same_value_trans(r@, raw@, sub_model(a@, b@));
    }
    r
}

/// `a * b`, exactly; the result's scale is at most the sum of the scales.
pub fn product(a: &Decimal, b: &Decimal) -> (r: Decimal)
    requires
        a.wf(),
        b.wf(),
        a.scale + b.scale <= SCALE_MAX,
    ensures
        r.wf(),
        r.scale >= max_scale(a.scale as nat, b.scale as nat),
        r.scale <= a.scale + b.scale,
        same_value(r@, mul_model(a@, b@)),
{
    let (n, d, e) = big_product(a, b);
    let raw = Decimal::from_parts(n, d, e);
    let r = raw.with_scale_at_least(if a.scale >= b.scale { a.scale } else { b.scale });
    proof {
        lemma_same_value_trans(r@, raw@, mul_model(a@, b@));
    }
    r
}

/// `a / b`, rounded by the back end to its default precision (100
/// significant digits); fails on a zero divisor, and with `ComputationError`
/// on an operand whose scale exceeds `ROUNDED_SCALE_MAX`.
pub fn quotient(a: &Decimal, b: &Decimal) -> (r: Result<Decimal, CalcError>)
    requires
        a.wf(),
        b.wf(),
    ensures
        b@.0 == 0 <==> r == Err::<Decimal, CalcError>(CalcError::DivisionByZero),
        r matches Ok(q) ==> q.wf() && q@ == ({
            let t = quotient_of(back_end_view(*a), back_end_view(*b));
            raw_model(t.0, t.1)
        }),
        b@.0 != 0 && a.scale <= ROUNDED_SCALE_MAX && b.scale <= ROUNDED_SCALE_MAX ==> r is Ok,
        r matches Err(e) ==> e == CalcError::DivisionByZero || e == CalcError::ComputationError,
{
    if b.is_zero() {
        return Err(CalcError::DivisionByZero);
    }
    if a.scale > ROUNDED_SCALE_MAX || b.scale > ROUNDED_SCALE_MAX {
        return Err(CalcError::ComputationError);
    }
    let (n, d, e) = big_quotient(a, b);
    Ok(Decimal::from_parts(n, d, e))
}

/// The remainder of truncating division: `a - trunc(a / b) * b`, with the
/// sign of `a`, at the larger of the two scales; fails on a zero divisor.
pub fn remainder(a: &Decimal, b: &Decimal) -> (r: Result<Decimal, CalcError>)
    requires
        a.wf(),
        b.wf(),
    ensures
        b@.0 == 0 <==> r == Err::<Decimal, CalcError>(CalcError::DivisionByZero),
        r matches Ok(m) ==> m.wf() && m@ == rem_model(a@, b@),
        b@.0 != 0 ==> r is Ok,
{
    if b.is_zero() {
        return Err(CalcError::DivisionByZero);
    }
    let (n, d, e) = big_remainder(a, b);
    Ok(Decimal::from_parts(n, d, e))
}

/// The principal square root, rounded by the back end to its default
/// precision (100 significant digits); fails on a negative operand, and with
/// `ComputationError` where the back end gives no root or the operand's
/// scale exceeds `ROUNDED_SCALE_MAX`.
pub fn square_root(a: &Decimal) -> (r: Result<Decimal, CalcError>)
    requires
        a.wf(),
    ensures
        a@.0 < 0 <==> r == Err::<Decimal, CalcError>(CalcError::NegativeRadicand),
        a@.0 >= 0 && a.scale <= ROUNDED_SCALE_MAX ==> r is Ok,
        r matches Ok(s) ==> s.wf() && s@.0 >= 0 && s@ == ({
            let t = root_of(back_end_view(*a));
            raw_model(t.0, t.1)
        }),
        r matches Err(e) ==> e == CalcError::NegativeRadicand || e == CalcError::ComputationError,
{
    if a.is_negative() {
        return Err(CalcError::NegativeRadicand);
    }
    if a.scale > ROUNDED_SCALE_MAX {
        return Err(CalcError::ComputationError);
    }
    match big_root(a) {
        Some((n, d, e)) => {
            proof {
                if e < 0 {
                    let (u, q) = (signed_val(n, d@), pow10((-e) as nat));
                    lemma_pow10_pos((-e) as nat);
                    assert(u * q >= 0) by (nonlinear_arith)
                        requires
                            u >= 0,
                            q > 0,
                    ;
                }
            }
            Ok(Decimal::from_parts(n, d, e))
        },
        None => Err(CalcError::ComputationError),
    }
}

/// The numeric order of two (unscaled, scale) pairs: `-1`, `0` or `1` as
/// `x` is below, equal to or above `y`.
pub open spec fn order_model(x: (int, nat), y: (int, nat)) -> int {
    let l = x.0 * pow10(y.1);
    let r = y.0 * pow10(x.1);
    if l < r {
        -1
    } else if l == r {
        0
    } else {
        1
    }
}

/// Compares two values by the numbers they denote, whatever their scales
/// (`1.50` equals `1.5`).
pub fn compare(a: &Decimal, b: &Decimal) -> (r: core::cmp::Ordering)
    requires
        a.wf(),
        b.wf(),
    ensures
        order_model(a@, b@) == -1 <==> r == core::cmp::Ordering::Less,
        order_model(a@, b@) == 0 <==> r == core::cmp::Ordering::Equal,
        order_model(a@, b@) == 1 <==> r == core::cmp::Ordering::Greater,
{
    let diff = difference(a, b);
    proof {
        lemma_pow10_pos(diff@.1);
        lemma_pow10_pos(a@.1 + b@.1);
        let x = diff@.0;
        let y = sub_model(a@, b@).0;
        let (p, q) = (pow10(a@.1 + b@.1), pow10(diff@.1));
        assert((x < 0 <==> y < 0) && (x == 0 <==> y == 0)) by (nonlinear_arith)
            requires
                x * p == y * q,
                p > 0,
                q > 0,
        ;
    }
    if diff.is_zero() {
        core::cmp::Ordering::Equal
    } else if diff.is_negative() {
        core::cmp::Ordering::Less
    } else {
        core::cmp::Ordering::Greater
    }
}

/// The value is a non-negative whole number.
pub open spec fn whole_exponent(x: (int, nat)) -> bool {
    &&& x.0 >= 0
    &&& x.0 % pow10(x.1) == 0
}

/// The whole number that a valid exponent denotes.
pub open spec fn exponent_model(x: (int, nat)) -> nat {
    (x.0 / pow10(x.1)) as nat
}

/// Reads an exponent: a non-negative whole number, whatever its scale
/// (`3.000` is three). Anything else is `InvalidExponent`; a whole number
/// above `u32::MAX` is `ComputationError`, as no loop of that length is run.
pub fn exponent_value(x: &Decimal) -> (r: Result<u32, CalcError>)
    requires
        x.wf(),
    ensures
        !whole_exponent(x@) <==> r == Err::<u32, CalcError>(CalcError::InvalidExponent),
        whole_exponent(x@) && exponent_model(x@) <= u32::MAX <==> r is Ok,
        r matches Ok(n) ==> n as nat == exponent_model(x@),
        r matches Err(e) ==> e == CalcError::InvalidExponent || e == CalcError::ComputationError,
{
    let ghost u = x@.0;
    let ghost p = pow10(x.scale as nat);
    proof {
        lemma_pow10_pos(x.scale as nat);
    }
    if x.is_negative() {
        return Err(CalcError::InvalidExponent);
    }
    let d = &x.digits;
    let len = d.len();
    assert(u == digits_val(d@));
    if x.scale as u128 >= len as u128 {
        if x.is_zero() {
            proof {
                assert(0int % p == 0 && 0int / p == 0) by (nonlinear_arith)
                    requires
                        p > 0,
                ;
            }
            return Ok(0);
        }
        proof {
            lemma_digits_bound(d@);
            lemma_pow10_add(len as nat, (x.scale - len) as nat);
            lemma_pow10_pos((x.scale - len) as nat);
            let q = pow10(len as nat);
            let q2 = pow10((x.scale - len) as nat);
            assert(u < p) by (nonlinear_arith)
                requires
                    u < q,
                    p == q * q2,
                    q2 >= 1,
                    q > 0,
            ;
            lemma_fundamental_div_mod_converse(u, p, 0, u);
        }
        return Err(CalcError::InvalidExponent);
    }
    let k: usize = len - x.scale as usize;
    let ghost pre = d@.take(k as int);
    let ghost suf = d@.skip(k as int);
    proof {
        assert(d@ =~= pre + suf);
        lemma_digits_concat(pre, suf);
        assert(all_digits(suf));
        lemma_digits_bound(suf);
        assert(suf.len() == x.scale);
        lemma_fundamental_div_mod_converse(u, p, digits_val(pre) as int, digits_val(suf) as int);
    }
    let mut j: usize = k;
    while j < len
        invariant
            k <= j <= len,
            len == d@.len(),
            suf == d@.skip(k as int),
            u == x@.0,
            p == pow10(x@.1),
            u % p == digits_val(suf),
            forall|i: int| k <= i < j ==> #[trigger] d@[i] == 0,
        decreases len - j,
    {
        if d[j] != 0 {
            proof {
                crate::decimal::lemma_digits_zero(suf);
                assert(suf[j - k] == d@[j as int]);
                assert(digits_val(suf) != 0);
                assert(u % p != 0);
            }
            return Err(CalcError::InvalidExponent);
        }
        j = j + 1;
    }
    proof {
        crate::decimal::lemma_digits_zero(suf);
        assert forall|i: int| 0 <= i < suf.len() implies #[trigger] suf[i] == 0 by {
            assert(suf[i] == d@[i + k]);
        }
    }
    let mut acc: u64 = 0;
    let mut i: usize = 0;
    while i < k
        invariant
            i <= k,
            k <= len == d@.len(),
            pre == d@.take(k as int),
            u == x@.0,
            p == pow10(x@.1),
            u / p == digits_val(pre),
            u % p == 0,
            u >= 0,
            all_digits(d@),
            acc as int == digits_val(d@.take(i as int)),
            acc <= u32::MAX,
        decreases k - i,
    {
        let next: u64 = acc * 10 + d[i] as u64;
        proof {
            assert(d@.take(i + 1).drop_last() =~= d@.take(i as int));
            assert(d@[i as int] < 10);
        }
        if next > u32::MAX as u64 {
            proof {
                let head = d@.take(i + 1);
                assert(head.last() == d@[i as int]);
                assert(digits_val(head) == next);
                let rest = pre.skip(i + 1);
                assert(pre =~= head + rest);
                lemma_digits_concat(head, rest);
                lemma_pow10_pos(rest.len());
                let a = digits_val(head) as int;
                let b = pow10(rest.len());
                assert(a * b >= a) by (nonlinear_arith)
                    requires
                        a >= 0,
                        b >= 1,
                ;
                assert(digits_val(pre) > u32::MAX);
            }
            return Err(CalcError::ComputationError);
        }
        acc = next;
        i = i + 1;
    }
    assert(d@.take(k as int) =~= pre);
    Ok(acc as u32)
}

/// `1` or `-1`: the sign of `c^n` for `c` one of those.
pub open spec fn unit_pow(c: int, n: nat) -> int {
    if c == 1 || n % 2 == 0 {
        1
    } else {
        -1
    }
}

/// A power of zero is zero once the exponent is positive.
pub proof fn lemma_pow_of_zero(x: (int, nat), n: nat)
    requires
        x.0 == 0,
        n > 0,
    ensures
        pow_model(x, n).0 == 0,
    decreases n,
{
    if n > 1 {
        lemma_pow_of_zero(x, (n - 1) as nat);
    }
    let prev = pow_model(x, (n - 1) as nat);
    assert(prev.0 * x.0 == 0) by (nonlinear_arith)
        requires
            x.0 == 0,
    ;
}

/// A power of one is one; a power of minus one is one or minus one as the
/// exponent is even or odd.
pub proof fn lemma_pow_of_unit(x: (int, nat), c: int, n: nat)
    requires
        c == 1 || c == -1,
        same_value(x, (c, 0)),
    ensures
        same_value(pow_model(x, n), (unit_pow(c, n), 0)),
    decreases n,
{
    if n == 0 {
        assert(1 * pow10(0) == 1 * pow10(0));
    } else {
        let m = (n - 1) as nat;
        lemma_pow_of_unit(x, c, m);
        let prev = pow_model(x, m);
        let v = unit_pow(c, m);
        lemma_mul_same_value(prev, (v, 0), x);
        let w = unit_pow(c, n);
        assert(w == v * c);
        let px = pow10(x.1);
        assert(x.0 * 1 == c * px);
        assert((v * x.0) * 1 == (v * c) * px) by (nonlinear_arith)
            requires
                x.0 == c * px,
        ;
        assert(mul_model((v, 0), x) == (v * x.0, x.1));
        assert(same_value(mul_model((v, 0), x), (w, 0)));
        lemma_same_value_trans(pow_model(x, n), mul_model((v, 0), x), (w, 0));
    }
}

/// Whether a whole exponent is odd.
pub fn exponent_is_odd(x: &Decimal) -> (r: bool)
    requires
        x.wf(),
        whole_exponent(x@),
    ensures
        r == (exponent_model(x@) % 2 == 1),
{
    let ghost u = x@.0;
    let ghost p = pow10(x.scale as nat);
    proof {
        lemma_pow10_pos(x.scale as nat);
    }
    let d = &x.digits;
    let len = d.len();
    if x.scale as u128 >= len as u128 {
        proof {
            lemma_digits_bound(d@);
            lemma_pow10_add(len as nat, (x.scale - len) as nat);
            lemma_pow10_pos((x.scale - len) as nat);
            let q = pow10(len as nat);
            let q2 = pow10((x.scale - len) as nat);
            assert(u < p) by (nonlinear_arith)
                requires
                    0 <= u < q,
                    p == q * q2,
                    q2 >= 1,
                    q > 0,
            ;
            lemma_fundamental_div_mod_converse(u, p, 0, u);
        }
        return false;
    }
    let k: usize = len - x.scale as usize;
    proof {
        let pre = d@.take(k as int);
        let suf = d@.skip(k as int);
        assert(d@ =~= pre + suf);
        lemma_digits_concat(pre, suf);
        assert(all_digits(suf));
        lemma_digits_bound(suf);
        lemma_fundamental_div_mod_converse(u, p, digits_val(pre) as int, digits_val(suf) as int);
        assert(pre.drop_last() =~= d@.take(k - 1));
        assert(pre.last() == d@[k - 1]);
        let h = digits_val(pre.drop_last()) as int;
        let l = pre.last() as int;
        assert((h * 10 + l) % 2 == l % 2) by (nonlinear_arith)
            requires
                h >= 0,
                0 <= l,
        ;
    }
    d[k - 1] % 2 == 1
}

/// `base` raised to a whole-number exponent, one for exponent zero. Powers
/// of zero, one and minus one are given directly for any exponent; other
/// bases are multiplied out, which takes an exponent of at most `u32::MAX`
/// and a result scale (`base.scale * exponent`) that fits: past either
/// limit the result is `ComputationError`. A fractional or negative
/// exponent is `InvalidExponent`.
pub fn power(base: &Decimal, exponent: &Decimal) -> (r: Result<Decimal, CalcError>)
    requires
        base.wf(),
        exponent.wf(),
    ensures
        !whole_exponent(exponent@) <==> r == Err::<Decimal, CalcError>(
            CalcError::InvalidExponent,
        ),
        whole_exponent(exponent@) && (base@.0 == 0 || same_value(base@, (1, 0)) || same_value(
            base@,
            (-1, 0),
        ) || (exponent_model(exponent@) <= u32::MAX && base.scale * exponent_model(exponent@)
            <= SCALE_MAX)) ==> r is Ok,
        r matches Ok(p) ==> p.wf() && same_value(p@, pow_model(base@, exponent_model(exponent@))),
        r matches Err(e) ==> e == CalcError::InvalidExponent || e == CalcError::ComputationError,
{
    let checked = exponent_value(exponent);
    if let Err(CalcError::InvalidExponent) = checked {
        return Err(CalcError::InvalidExponent);
    }
    let ghost n = exponent_model(exponent@);
    let one = Decimal { negative: false, digits: vec![1u8], scale: 0 };
    let minus_one = Decimal { negative: true, digits: vec![1u8], scale: 0 };
    proof {
        assert(one.digits@.len() == 1 && one.digits@[0] == 1);
        assert(one.digits@.drop_last() =~= Seq::<u8>::empty());
        assert(digits_val(Seq::<u8>::empty()) == 0);
        assert(digits_val(one.digits@) == 1);
        assert(minus_one.digits@ == one.digits@);
        assert(one@ == (1int, 0nat));
        assert(minus_one@ == (-1int, 0nat));
        lemma_pow10_pos(exponent@.1);
        let (u, q) = (exponent@.0, pow10(exponent@.1));
        assert(whole_exponent(exponent@));
        vstd::arithmetic::div_mod::lemma_fundamental_div_mod(u, q);
        assert(u == 0 <==> u / q == 0) by (nonlinear_arith)
            requires
                u >= 0,
                q > 0,
                u == q * (u / q),
        ;
    }
    if base.is_zero() {
        if exponent.is_zero() {
            return Ok(one);
        }
        proof {
            lemma_pow_of_zero(base@, n);
            assert(0 * pow10(pow_model(base@, n).1) == 0);
        }
        return Ok(Decimal { negative: false, digits: Vec::new(), scale: 0 });
    }
    if let core::cmp::Ordering::Equal = compare(base, &one) {
        proof {
            lemma_pow_of_unit(base@, 1, n);
        }
        return Ok(one);
    }
    if let core::cmp::Ordering::Equal = compare(base, &minus_one) {
        proof {
            lemma_pow_of_unit(base@, -1, n);
        }
        if exponent_is_odd(exponent) {
            return Ok(minus_one);
        }
        return Ok(one);
    }
    let n = match checked {
        Ok(n) => n,
        Err(_) => return Err(CalcError::ComputationError),
    };
    proof {
        let (a, b) = (base.scale as int, n as int);
        assert(a * b <= 0xffff_ffff_ffff_ffffint * 0xffff_ffffint) by (nonlinear_arith)
            requires
                0 <= a <= 0xffff_ffff_ffff_ffffint,
                0 <= b <= 0xffff_ffffint,
        ;
    }
    if (base.scale as u128) * (n as u128) > SCALE_MAX as u128 {
        return Err(CalcError::ComputationError);
    }
    let mut result = one;
    let mut i: u32 = 0;
    while i < n
        invariant
            i <= n,
            base.wf(),
            base.scale * n <= SCALE_MAX,
            result.wf(),
            result.scale <= i * base.scale,
            same_value(result@, pow_model(base@, i as nat)),
        decreases n - i,
    {
        proof {
            assert(i * base.scale + base.scale <= base.scale * n) by (nonlinear_arith)
                requires
                    i < n,
            ;
        }
        let next = product(&result, base);
        proof {
            lemma_mul_same_value(result@, pow_model(base@, i as nat), base@);
            lemma_same_value_trans(next@, mul_model(result@, base@), mul_model(pow_model(base@, i as nat), base@));
            assert(pow_model(base@, (i + 1) as nat) == mul_model(pow_model(base@, i as nat), base@));
            assert((i + 1) * base.scale == i * base.scale + base.scale) by (nonlinear_arith);
        }
        result = next;
        i = i + 1;
    }
    Ok(result)
}

/// The seven operations of the calculator.
#[derive(Debug, Clone, Copy, PartialEq, Eq, Structural)]
pub enum Operation {
    Add,
    Subtract,
    Multiply,
    Divide,
    Modulus,
    Power,
    SquareRoot,
}

impl Operation {
    /// The operation behind a menu code: `1` to `7` in declaration order.
    pub fn from_code(code: i32) -> (r: Option<Operation>)
        ensures
            r is Some <==> 1 <= code <= 7,
            code == 1 ==> r == Some(Operation::Add),
            code == 2 ==> r == Some(Operation::Subtract),
            code == 3 ==> r == Some(Operation::Multiply),
            code == 4 ==> r == Some(Operation::Divide),
            code == 5 ==> r == Some(Operation::Modulus),
            code == 6 ==> r == Some(Operation::Power),
            code == 7 ==> r == Some(Operation::SquareRoot),
    {
        match code {
            1 => Some(Operation::Add),
            2 => Some(Operation::Subtract),
            3 => Some(Operation::Multiply),
            4 => Some(Operation::Divide),
            5 => Some(Operation::Modulus),
            6 => Some(Operation::Power),
            7 => Some(Operation::SquareRoot),
            _ => None,
        }
    }

    /// The number of operands the operation reads: one for the square root,
    /// two for the others.
    pub fn arity(&self) -> (r: u8)
        ensures
            r == (if *self == Operation::SquareRoot { 1u8 } else { 2u8 }),
    {
        match self {
            Operation::SquareRoot => 1,
            _ => 2,
        }
    }

    /// Applies the operation to `first` and `second`; the square root reads
    /// `first` alone.
    pub fn apply(&self, first: &Decimal, second: &Decimal) -> (r: Result<Decimal, CalcError>)
        requires
            first.wf(),
            second.wf(),
        ensures
            r matches Ok(v) ==> v.wf(),
            *self == Operation::Add || *self == Operation::Subtract || *self == Operation::Multiply
                ==> (r matches Ok(v) ==> v.scale >= max_scale(first.scale as nat, second.scale as nat)),
            *self == Operation::Add ==> r is Ok && (r matches Ok(v) ==> same_value(
                v@,
                add_model(first@, second@),
            )),
            *self == Operation::Subtract ==> r is Ok && (r matches Ok(v) ==> same_value(
                v@,
                sub_model(first@, second@),
            )),
            *self == Operation::Multiply ==> (first.scale + second.scale <= SCALE_MAX <==> r is Ok)
                && (r matches Ok(v) ==> same_value(v@, mul_model(first@, second@)))
                && (r matches Err(e) ==> e == CalcError::ComputationError),
            *self == Operation::Divide ==> (second@.0 == 0 <==> r == Err::<Decimal, CalcError>(
                CalcError::DivisionByZero,
            )) && (second@.0 != 0 && first.scale <= ROUNDED_SCALE_MAX && second.scale
                <= ROUNDED_SCALE_MAX ==> r is Ok) && (r matches Err(e) ==> e
                == CalcError::DivisionByZero || e == CalcError::ComputationError) && (r matches Ok(
                v,
            ) ==> v@ == ({
                let t = quotient_of(back_end_view(*first), back_end_view(*second));
                raw_model(t.0, t.1)
            })),
            *self == Operation::Modulus ==> (second@.0 == 0 <==> r == Err::<Decimal, CalcError>(
                CalcError::DivisionByZero,
            )) && (second@.0 != 0 ==> r is Ok) && (r matches Ok(v) ==> v@ == rem_model(
                first@,
                second@,
            )),
            *self == Operation::Power ==> (!whole_exponent(second@) <==> r == Err::<
                Decimal,
                CalcError,
            >(CalcError::InvalidExponent)) && (whole_exponent(second@) && (first@.0 == 0
                || same_value(first@, (1, 0)) || same_value(first@, (-1, 0)) || (exponent_model(
                second@,
            ) <= u32::MAX && first.scale * exponent_model(second@) <= SCALE_MAX)) ==> r is Ok)
                && (r matches Ok(v) ==> same_value(v@, pow_model(first@, exponent_model(second@))))
                && (r matches Err(e) ==> e == CalcError::InvalidExponent || e
                == CalcError::ComputationError),
            *self == Operation::SquareRoot ==> (first@.0 < 0 <==> r == Err::<Decimal, CalcError>(
                CalcError::NegativeRadicand,
            )) && (first@.0 >= 0 && first.scale <= ROUNDED_SCALE_MAX ==> r is Ok) && (r matches Ok(
                v,
            ) ==> v@.0 >= 0 && v@ == ({
                let t = root_of(back_end_view(*first));
                raw_model(t.0, t.1)
            })) && (r matches Err(e) ==> e == CalcError::NegativeRadicand || e
                == CalcError::ComputationError),
    {
        match self {
            Operation::Add => Ok(sum(first, second)),
            Operation::Subtract => Ok(difference(first, second)),
            Operation::Multiply => {
                if first.scale > SCALE_MAX - second.scale {
                    Err(CalcError::ComputationError)
                } else {
                    Ok(product(first, second))
                }
            },
            Operation::Divide => quotient(first, second),
            Operation::Modulus => remainder(first, second),
            Operation::Power => power(first, second),
            Operation::SquareRoot => square_root(first),
        }
    }
}

} // verus!
