//! The decimal value: a sign, a magnitude held as base-ten digits and a scale.
use vstd::prelude::*;

verus! {

/// The largest scale a value may carry (the scale is an `i64` in the
/// arithmetic back end).
pub const SCALE_MAX: u64 = 0x7fff_ffff_ffff_ffff;

/// The largest operand scale for division and square root: half the range
/// of the back end's scale, so that the scale steps it takes while dividing
/// or taking a root stay in range.
pub const ROUNDED_SCALE_MAX: u64 = 0x3fff_ffff_ffff_ffff;

/// Ten to the power `n`.
pub open spec fn pow10(n: nat) -> int
    decreases n,
{
    if n == 0 {
        1
    } else {
        10 * pow10((n - 1) as nat)
    }
}

/// The number that a big-endian sequence of base-ten digits spells.
pub open spec fn digits_val(d: Seq<u8>) -> nat
    decreases d.len(),
{
    if d.len() == 0 {
        0
    } else {
        digits_val(d.drop_last()) * 10 + d.last() as nat
    }
}

/// Every entry is a base-ten digit.
pub open spec fn all_digits(d: Seq<u8>) -> bool {
    forall|i: int| 0 <= i < d.len() ==> #[trigger] d[i] < 10
}

/// The signed integer made of a sign flag and a magnitude.
pub open spec fn signed_val(negative: bool, d: Seq<u8>) -> int {
    if negative {
        -(digits_val(d) as int)
    } else {
        digits_val(d) as int
    }
}

/// An unscaled integer and a (possibly negative) exponent, as the arithmetic
/// back end reports them, brought to a non-negative scale.
pub open spec fn raw_model(u: int, e: int) -> (int, nat) {
    if e >= 0 {
        (u, e as nat)
    } else {
        (u * pow10((-e) as nat), 0)
    }
}

/// Two (unscaled, scale) pairs denote the same number.
pub open spec fn same_value(x: (int, nat), y: (int, nat)) -> bool {
    x.0 * pow10(y.1) == y.0 * pow10(x.1)
}

/// Exact sum of two (unscaled, scale) pairs.
pub open spec fn add_model(x: (int, nat), y: (int, nat)) -> (int, nat) {
    (x.0 * pow10(y.1) + y.0 * pow10(x.1), x.1 + y.1)
}

/// Exact difference of two (unscaled, scale) pairs.
pub open spec fn sub_model(x: (int, nat), y: (int, nat)) -> (int, nat) {
    (x.0 * pow10(y.1) - y.0 * pow10(x.1), x.1 + y.1)
}

/// Exact product of two (unscaled, scale) pairs.
pub open spec fn mul_model(x: (int, nat), y: (int, nat)) -> (int, nat) {
    (x.0 * y.0, x.1 + y.1)
}

/// Remainder of truncating integer division: it has the sign of `a`.
pub open spec fn trunc_rem(a: int, b: int) -> int {
    let r = (if a >= 0 { a } else { -a }) % (if b >= 0 { b } else { -b });
    if a >= 0 {
        r
    } else {
        -r
    }
}

/// Larger of two scales.
pub open spec fn max_scale(a: nat, b: nat) -> nat {
    if a >= b {
        a
    } else {
        b
    }
}

/// Remainder of truncating division of two (unscaled, scale) pairs, both
/// brought to the larger scale first.
pub open spec fn rem_model(x: (int, nat), y: (int, nat)) -> (int, nat) {
    let s = max_scale(x.1, y.1);
    (trunc_rem(x.0 * pow10((s - x.1) as nat), y.0 * pow10((s - y.1) as nat)), s)
}

/// `x` multiplied by itself `e` times, starting from one.
pub open spec fn pow_model(x: (int, nat), e: nat) -> (int, nat)
    decreases e,
{
    if e == 0 {
        (1, 0)
    } else {
        mul_model(pow_model(x, (e - 1) as nat), x)
    }
}

/// Digits placed after other digits shift those by their count.
pub proof fn lemma_digits_concat(a: Seq<u8>, b: Seq<u8>)
    ensures
        digits_val(a + b) == digits_val(a) * pow10(b.len()) + digits_val(b),
    decreases b.len(),
{
    if b.len() == 0 {
        assert(a + b =~= a);
    } else {
        let b1 = b.drop_last();
        assert((a + b).drop_last() =~= a + b1);
        assert((a + b).last() == b.last());
        lemma_digits_concat(a, b1);
        let x = digits_val(a) as int;
        let p = pow10(b1.len());
        let y = digits_val(b1) as int;
        assert((x * p + y) * 10 == x * (10 * p) + y * 10) by (nonlinear_arith);
    }
}

/// A magnitude of `n` digits is below `10^n`.
pub proof fn lemma_digits_bound(d: Seq<u8>)
    requires
        all_digits(d),
    ensures
        digits_val(d) < pow10(d.len()),
    decreases d.len(),
{
    if d.len() > 0 {
        let d1 = d.drop_last();
        assert(all_digits(d1));
        lemma_digits_bound(d1);
        assert(d.last() == d[d.len() - 1]);
    }
}

/// A magnitude is zero exactly when each of its digits is.
pub proof fn lemma_digits_zero(d: Seq<u8>)
    ensures
        digits_val(d) == 0 <==> (forall|i: int| 0 <= i < d.len() ==> #[trigger] d[i] == 0),
    decreases d.len(),
{
    if d.len() > 0 {
        let d1 = d.drop_last();
        lemma_digits_zero(d1);
        assert(d.last() == d[d.len() - 1]);
        if forall|i: int| 0 <= i < d.len() ==> #[trigger] d[i] == 0 {
            assert forall|i: int| 0 <= i < d1.len() implies #[trigger] d1[i] == 0 by {
                assert(d1[i] == d[i]);
            }
        }
        if digits_val(d) == 0 {
            assert forall|i: int| 0 <= i < d.len() implies #[trigger] d[i] == 0 by {
                if i < d1.len() {
                    assert(d1[i] == d[i]);
                }
            }
        }
    }
}

/// Powers of ten are positive.
pub proof fn lemma_pow10_pos(n: nat)
    ensures
        pow10(n) > 0,
    decreases n,
{
    if n > 0 {
        lemma_pow10_pos((n - 1) as nat);
    }
}

/// `10^(a+b) == 10^a * 10^b`.
pub proof fn lemma_pow10_add(a: nat, b: nat)
    ensures
        pow10(a + b) == pow10(a) * pow10(b),
    decreases b,
{
    if b > 0 {
        lemma_pow10_add(a, (b - 1) as nat);
        let x = pow10(a);
        let y = pow10((b - 1) as nat);
        assert(10 * (x * y) == x * (10 * y)) by (nonlinear_arith);
    } else {
        assert(pow10(a) * 1 == pow10(a));
    }
}

/// Values equal to a common value are equal.
pub proof fn lemma_same_value_trans(x: (int, nat), y: (int, nat), z: (int, nat))
    requires
        same_value(x, y),
        same_value(y, z),
    ensures
        same_value(x, z),
{
    lemma_pow10_pos(x.1);
    lemma_pow10_pos(y.1);
    lemma_pow10_pos(z.1);
    let (px, py, pz) = (pow10(x.1), pow10(y.1), pow10(z.1));
    assert((x.0 * pz) * py == (z.0 * px) * py) by (nonlinear_arith)
        requires
            x.0 * py == y.0 * px,
            y.0 * pz == z.0 * py,
    ;
    assert(x.0 * pz == z.0 * px) by (nonlinear_arith)
        requires
            (x.0 * pz) * py == (z.0 * px) * py,
            py > 0,
    ;
}

/// Multiplying equal values by one value gives equal values.
pub proof fn lemma_mul_same_value(x: (int, nat), y: (int, nat), z: (int, nat))
    requires
        same_value(x, y),
    ensures
        same_value(mul_model(x, z), mul_model(y, z)),
{
    lemma_pow10_add(y.1, z.1);
    lemma_pow10_add(x.1, z.1);
    let (px, py, pz) = (pow10(x.1), pow10(y.1), pow10(z.1));
    assert((x.0 * z.0) * (py * pz) == (y.0 * z.0) * (px * pz)) by (nonlinear_arith)
        requires
            x.0 * py == y.0 * px,
    ;
}

/// A decimal number: `(-1)^negative * digits * 10^(-scale)`.
#[derive(Debug)]
pub struct Decimal {
    /// Sign flag; a zero magnitude is zero whatever the flag.
    pub negative: bool,
    /// Magnitude, most significant digit first; may be empty (zero).
    pub digits: Vec<u8>,
    /// Number of digits after the decimal point.
    pub scale: u64,
}

impl View for Decimal {
    /// The unscaled signed integer and the scale.
    type V = (int, nat);

    open spec fn view(&self) -> (int, nat) {
        (signed_val(self.negative, self.digits@), self.scale as nat)
    }
}

impl Decimal {
    /// Every digit is below ten and the scale fits the back end.
    pub open spec fn wf(&self) -> bool {
        all_digits(self.digits@) && self.scale <= SCALE_MAX
    }

    /// Builds a value from a sign, digits and an exponent as the arithmetic
    /// back end reports them; a negative exponent becomes trailing zeros.
    pub fn from_parts(negative: bool, digits: Vec<u8>, exponent: i64) -> (r: Decimal)
        requires
            all_digits(digits@),
        ensures
            r.wf(),
            r@ == raw_model(signed_val(negative, digits@), exponent as int),
    {
        if exponent >= 0 {
            return Decimal { negative, digits, scale: exponent as u64 };
        }
        let k: u64 = (-(exponent as i128)) as u64;
        let mut d = digits;
        let mut i: u64 = 0;
        while i < k
            invariant
                i <= k,
                k as int == -(exponent as int),
                all_digits(d@),
                digits_val(d@) == digits_val(digits@) * pow10(i as nat),
            decreases k - i,
        {
            let ghost before = d@;
            d.push(0u8);
            proof {
                assert(d@.drop_last() =~= before);
                let a = digits_val(digits@) as int;
                let p = pow10(i as nat);
                assert(a * p * 10 == a * (10 * p)) by (nonlinear_arith);
            }
            i = i + 1;
        }
        proof {
            let a = digits_val(digits@) as int;
            let p = pow10(k as nat);
            assert(-(a * p) == (-a) * p) by (nonlinear_arith);
        }
        Decimal { negative, digits: d, scale: 0 }
    }

    /// The same number written with at least `s` fraction digits: zero
    /// digits are appended until the scale reaches `s`.
    pub fn with_scale_at_least(self, s: u64) -> (r: Decimal)
        requires
            self.wf(),
            s <= SCALE_MAX,
        ensures
            r.wf(),
            r.scale == max_scale(self.scale as nat, s as nat),
            same_value(r@, self@),
    {
        let Decimal { negative, digits, scale } = self;
        let mut d = digits;
        let mut sc = scale;
        while sc < s
            invariant
                scale <= sc,
                sc <= s || sc == scale,
                s <= SCALE_MAX,
                scale <= SCALE_MAX,
                all_digits(d@),
                digits_val(d@) == digits_val(digits@) * pow10((sc - scale) as nat),
            decreases s - sc,
        {
            let ghost before = d@;
            d.push(0u8);
            proof {
                assert(d@.drop_last() =~= before);
                let a = digits_val(digits@) as int;
                let p = pow10((sc - scale) as nat);
                assert(pow10((sc + 1 - scale) as nat) == 10 * p);
                assert(a * p * 10 == a * (10 * p)) by (nonlinear_arith);
            }
            sc = sc + 1;
        }
        proof {
            let a = digits_val(digits@) as int;
            let k = (sc - scale) as nat;
            lemma_pow10_add(scale as nat, k);
            let (p0, pk) = (pow10(scale as nat), pow10(k));
            assert((a * pk) * p0 == a * (p0 * pk)) by (nonlinear_arith);
            assert((-(a * pk)) * p0 == (-a) * (p0 * pk)) by (nonlinear_arith);
        }
        Decimal { negative, digits: d, scale: sc }
    }

    /// The value is zero.
    pub fn is_zero(&self) -> (r: bool)
        ensures
            r == (self@.0 == 0),
    {
        let n = self.digits.len();
        let mut i: usize = 0;
        while i < n
            invariant
                n == self.digits@.len(),
                i <= n,
                forall|j: int| 0 <= j < i ==> #[trigger] self.digits@[j] == 0,
            decreases n - i,
        {
            if self.digits[i] != 0 {
                proof {
                    lemma_digits_zero(self.digits@);
                }
                return false;
            }
            i = i + 1;
        }
        proof {
            lemma_digits_zero(self.digits@);
        }
        true
    }

    /// The value is below zero.
    pub fn is_negative(&self) -> (r: bool)
        ensures
            r == (self@.0 < 0),
    {
        self.negative && !self.is_zero()
    }
}

} // verus!
