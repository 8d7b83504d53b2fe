//! Decimal literals: reading them into values, and the canonical text of a value.
use crate::decimal::{
    all_digits, digits_val, lemma_digits_concat, lemma_digits_zero, pow10, Decimal, SCALE_MAX,
};
use crate::ops::CalcError;
use vstd::prelude::*;
use vstd::string::{StrSliceExecFns, StringExecFns};

verus! {

/// `c` is one of `0` to `9`.
pub open spec fn is_digit_char(c: char) -> bool {
    '0' <= c <= '9'
}

/// The digit a digit character stands for.
pub open spec fn char_digit(c: char) -> u8 {
    (c as u32 - '0' as u32) as u8
}

/// The text starts with `+` or `-`.
pub open spec fn has_sign(s: Seq<char>) -> bool {
    s.len() > 0 && (s[0] == '+' || s[0] == '-')
}

/// The text after its sign, if any.
pub open spec fn body(s: Seq<char>) -> Seq<char> {
    if has_sign(s) {
        s.skip(1)
    } else {
        s
    }
}

/// The digits of a text in order, points skipped.
pub open spec fn digit_chars(b: Seq<char>) -> Seq<u8>
    decreases b.len(),
{
    if b.len() == 0 {
        Seq::empty()
    } else if is_digit_char(b.last()) {
        digit_chars(b.drop_last()).push(char_digit(b.last()))
    } else {
        digit_chars(b.drop_last())
    }
}

/// The number of points in a text.
pub open spec fn dot_count(b: Seq<char>) -> nat
    decreases b.len(),
{
    if b.len() == 0 {
        0
    } else if b.last() == '.' {
        dot_count(b.drop_last()) + 1
    } else {
        dot_count(b.drop_last())
    }
}

/// The number of characters after the point (zero without one).
pub open spec fn frac_len(b: Seq<char>) -> nat
    decreases b.len(),
{
    if b.len() == 0 || b.last() == '.' {
        0
    } else if dot_count(b.drop_last()) > 0 {
        frac_len(b.drop_last()) + 1
    } else {
        0
    }
}

/// An optionally signed run of digits with at most one point and at least
/// one digit.
pub open spec fn valid_literal(s: Seq<char>) -> bool {
    let b = body(s);
    &&& forall|i: int| 0 <= i < b.len() ==> is_digit_char(#[trigger] b[i]) || b[i] == '.'
    &&& dot_count(b) <= 1
    &&& digit_chars(b).len() > 0
}

/// The value a valid literal denotes: its sign, its digits and the number
/// of digits after its point.
pub open spec fn literal_decimal(d: Decimal, s: Seq<char>) -> bool {
    &&& d.negative == (has_sign(s) && s[0] == '-')
    &&& d.digits@ == digit_chars(body(s))
    &&& d.scale == frac_len(body(s))
}

/// Reads a decimal literal: an optional `+` or `-`, digits, and at most one
/// `.`, with at least one digit. Anything else, surrounding whitespace
/// included, is `ParseError`.
pub fn parse(text: &str) -> (r: Result<Decimal, CalcError>)
    requires
        text@.len() <= SCALE_MAX,
    ensures
        valid_literal(text@) <==> r is Ok,
        r matches Ok(d) ==> d.wf() && literal_decimal(d, text@),
        r matches Err(e) ==> e == CalcError::ParseError,
{
    let ghost s = text@;
    let n = text.unicode_len();
    let mut start: usize = 0;
    let mut negative = false;
    if n > 0 {
        let c = text.get_char(0);
        if c == '+' || c == '-' {
            start = 1;
            negative = c == '-';
        }
    }
    let ghost b = body(s);
    assert(b =~= s.skip(start as int));
    let mut digits: Vec<u8> = Vec::new();
    let mut dots: usize = 0;
    let mut frac: u64 = 0;
    let mut j: usize = start;
    while j < n
        invariant
            s == text@,
            n == s.len(),
            n <= SCALE_MAX,
            start <= j <= n,
            b == s.skip(start as int),
            b == body(s),
            digits@ == digit_chars(b.take(j - start)),
            dots == dot_count(b.take(j - start)),
            frac == frac_len(b.take(j - start)),
            frac <= j,
            dots <= j,
            all_digits(digits@),
            forall|i: int| 0 <= i < j - start ==> is_digit_char(#[trigger] b[i]) || b[i] == '.',
        decreases n - j,
    {
        let c = text.get_char(j);
        let ghost k = j - start;
        assert(b[k] == c);
        assert(b.take(k + 1).drop_last() =~= b.take(k));
        assert(b.take(k + 1).last() == c);
        if '0' <= c && c <= '9' {
            digits.push((c as u32 - '0' as u32) as u8);
            if dots > 0 {
                frac = frac + 1;
            }
        } else if c == '.' {
            dots = dots + 1;
            frac = 0;
        } else {
            assert(!(is_digit_char(b[k]) || b[k] == '.'));
            return Err(CalcError::ParseError);
        }
        j = j + 1;
    }
    assert(b.take(n - start) =~= b);
    if dots > 1 || digits.len() == 0 {
        return Err(CalcError::ParseError);
    }
    Ok(Decimal { negative, digits, scale: frac })
}

/// The character that writes digit `x`.
pub open spec fn digit_char(x: u8) -> char {
    seq!['0', '1', '2', '3', '4', '5', '6', '7', '8', '9'][x as int]
}

/// The characters that write a run of digits.
pub open spec fn text_of(d: Seq<u8>) -> Seq<char> {
    d.map_values(|x: u8| digit_char(x))
}

/// `n` zero digits.
pub open spec fn zeros(n: nat) -> Seq<u8> {
    Seq::new(n, |i: int| 0u8)
}

/// Drops trailing zero digits of the fraction: `(d, s)` with as many last
/// zero digits removed, one scale step each, as the scale allows.
pub open spec fn strip_zeros(d: Seq<u8>, s: nat) -> (Seq<u8>, nat)
    decreases d.len(),
{
    if s > 0 && d.len() > 0 && d.last() == 0 {
        strip_zeros(d.drop_last(), (s - 1) as nat)
    } else {
        (d, s)
    }
}

/// A run of digits without its leading zeros.
pub open spec fn skip_zeros(d: Seq<u8>) -> Seq<u8>
    decreases d.len(),
{
    if d.len() > 0 && d[0] == 0 {
        skip_zeros(d.skip(1))
    } else {
        d
    }
}

/// The digits before the point of `(t, k)`, without leading zeros.
pub open spec fn int_part(t: Seq<u8>, k: nat) -> Seq<u8> {
    if k >= t.len() {
        Seq::empty()
    } else {
        skip_zeros(t.take(t.len() - k))
    }
}

/// The `k` digits after the point of `(t, k)`, zeros in front where `t` is
/// shorter.
pub open spec fn frac_part(t: Seq<u8>, k: nat) -> Seq<u8> {
    if k >= t.len() {
        zeros((k - t.len()) as nat) + t
    } else {
        t.skip(t.len() - k)
    }
}

/// The integer digits of `(t, k)` as text: `0` when there are none.
pub open spec fn int_text(t: Seq<u8>, k: nat) -> Seq<char> {
    let ip = int_part(t, k);
    if ip.len() == 0 {
        seq!['0']
    } else {
        text_of(ip)
    }
}

/// The fraction of `(t, k)` as text: a `.` and the `k` digits, or nothing
/// for `k == 0`.
pub open spec fn frac_text(t: Seq<u8>, k: nat) -> Seq<char> {
    if k > 0 {
        seq!['.'] + text_of(frac_part(t, k))
    } else {
        Seq::empty()
    }
}

/// The sign of a value as text.
pub open spec fn sign_text(negative: bool) -> Seq<char> {
    if negative {
        seq!['-']
    } else {
        Seq::empty()
    }
}

/// The canonical text of a value: `0` for zero; otherwise a `-` for a
/// negative value, the integer digits (`0` when there are none), and, when
/// a fraction is left once its trailing zeros are dropped, a `.` and that
/// fraction.
pub open spec fn canonical(negative: bool, d: Seq<u8>, s: nat) -> Seq<char> {
    if digits_val(d) == 0 {
        seq!['0']
    } else {
        let (t, k) = strip_zeros(d, s);
        sign_text(negative) + int_text(t, k) + frac_text(t, k)
    }
}

/// The character of a digit is a digit character that reads back as that
/// digit.
pub proof fn lemma_digit_char(x: u8)
    requires
        x < 10,
    ensures
        is_digit_char(digit_char(x)),
        char_digit(digit_char(x)) == x,
        x != 0 ==> digit_char(x) != '0',
{
    let t = seq!['0', '1', '2', '3', '4', '5', '6', '7', '8', '9'];
    if x == 0 {
        assert(t[0] == '0');
    } else if x == 1 {
        assert(t[1] == '1');
    } else if x == 2 {
        assert(t[2] == '2');
    } else if x == 3 {
        assert(t[3] == '3');
    } else if x == 4 {
        assert(t[4] == '4');
    } else if x == 5 {
        assert(t[5] == '5');
    } else if x == 6 {
        assert(t[6] == '6');
    } else if x == 7 {
        assert(t[7] == '7');
    } else if x == 8 {
        assert(t[8] == '8');
    } else {
        assert(t[9] == '9');
    }
}

/// The text of a run of digits is all digit characters, holds no point and
/// reads back as the same digits.
pub proof fn lemma_text_of_digits(x: Seq<u8>)
    requires
        all_digits(x),
    ensures
        digit_chars(text_of(x)) == x,
        dot_count(text_of(x)) == 0,
        text_of(x).len() == x.len(),
        forall|i: int| 0 <= i < x.len() ==> is_digit_char(#[trigger] text_of(x)[i]),
    decreases x.len(),
{
    if x.len() > 0 {
        let y = x.drop_last();
        assert(all_digits(y));
        lemma_text_of_digits(y);
        assert(text_of(x).drop_last() =~= text_of(y));
        assert(x.last() == x[x.len() - 1]);
        lemma_digit_char(x.last());
        assert(text_of(x).last() == digit_char(x.last()));
        assert(x =~= y.push(x.last()));
    }
    assert forall|i: int| 0 <= i < x.len() implies is_digit_char(#[trigger] text_of(x)[i]) by {
        lemma_digit_char(x[i]);
    }
}

/// Digits, points and the fraction length of a concatenation.
pub proof fn lemma_chars_concat(a: Seq<char>, b: Seq<char>)
    ensures
        digit_chars(a + b) == digit_chars(a) + digit_chars(b),
        dot_count(a + b) == dot_count(a) + dot_count(b),
        dot_count(a) > 0 && dot_count(b) == 0 ==> frac_len(a + b) == frac_len(a) + b.len(),
    decreases b.len(),
{
    if b.len() == 0 {
        assert(a + b =~= a);
        assert(digit_chars(a) + digit_chars(b) =~= digit_chars(a));
    } else {
        let b1 = b.drop_last();
        lemma_chars_concat(a, b1);
        assert((a + b).drop_last() =~= a + b1);
        assert((a + b).last() == b.last());
        if is_digit_char(b.last()) {
            assert(digit_chars(a) + digit_chars(b) =~= (digit_chars(a) + digit_chars(b1)).push(
                char_digit(b.last()),
            ));
        }
    }
}

/// Removing a trailing zero digit lowers the scale by one and divides the
/// magnitude by ten; where it stops with a fraction left, the last digit is
/// not zero.
pub proof fn lemma_strip_zeros(d: Seq<u8>, s: nat)
    ensures
        ({
            let (t, k) = strip_zeros(d, s);
            &&& k <= s
            &&& t.len() <= d.len()
            &&& t == d.take(t.len() as int)
            &&& digits_val(d) == digits_val(t) * pow10((s - k) as nat)
            &&& (k > 0 ==> t.len() == 0 || t.last() != 0)
        }),
    decreases d.len(),
{
    if s > 0 && d.len() > 0 && d.last() == 0 {
        let d1 = d.drop_last();
        lemma_strip_zeros(d1, (s - 1) as nat);
        let (t, k) = strip_zeros(d1, (s - 1) as nat);
        assert(d1.take(t.len() as int) =~= d.take(t.len() as int));
        let x = digits_val(t) as int;
        let p = pow10((s - 1 - k) as nat);
        assert(pow10((s - k) as nat) == 10 * p);
        assert(x * p * 10 == x * (10 * p)) by (nonlinear_arith);
    } else {
        assert(d.take(d.len() as int) =~= d);
    }
}

/// Dropping leading zeros keeps the digits and the magnitude, and leaves a
/// first digit that is not zero.
pub proof fn lemma_skip_zeros(x: Seq<u8>)
    requires
        all_digits(x),
    ensures
        all_digits(skip_zeros(x)),
        digits_val(skip_zeros(x)) == digits_val(x),
        skip_zeros(x).len() > 0 ==> skip_zeros(x)[0] != 0,
    decreases x.len(),
{
    if x.len() > 0 && x[0] == 0 {
        let y = x.skip(1);
        assert(all_digits(y));
        lemma_skip_zeros(y);
        assert(x =~= seq![0u8] + y);
        lemma_digits_concat(seq![0u8], y);
        assert(seq![0u8].drop_last() =~= Seq::<u8>::empty());
        assert(digits_val(Seq::<u8>::empty()) == 0);
        assert(digits_val(seq![0u8]) == 0);
        assert(0 * pow10(y.len()) == 0);
        assert(digits_val(x) == digits_val(y));
    }
}

/// Zeros in front leave the magnitude unchanged.
pub proof fn lemma_leading_zeros(n: nat, x: Seq<u8>)
    ensures
        digits_val(zeros(n) + x) == digits_val(x),
{
    lemma_digits_concat(zeros(n), x);
    lemma_digits_zero(zeros(n));
    assert(digits_val(zeros(n)) == 0);
}

/// The text of one digit.
fn digit_text(x: u8) -> (r: &'static str)
    requires
        x < 10,
    ensures
        r@ == seq![digit_char(x)],
{
    proof {
        reveal_strlit("0");
        reveal_strlit("1");
        reveal_strlit("2");
        reveal_strlit("3");
        reveal_strlit("4");
        reveal_strlit("5");
        reveal_strlit("6");
        reveal_strlit("7");
        reveal_strlit("8");
        reveal_strlit("9");
    }
    match x {
        0 => "0",
        1 => "1",
        2 => "2",
        3 => "3",
        4 => "4",
        5 => "5",
        6 => "6",
        7 => "7",
        8 => "8",
        _ => "9",
    }
}

/// Appends the digits `d[from..to]`.
fn push_digits(out: &mut String, d: &Vec<u8>, from: usize, to: usize)
    requires
        from <= to <= d@.len(),
        all_digits(d@),
    ensures
        final(out)@ == old(out)@ + text_of(d@.subrange(from as int, to as int)),
{
    let ghost start = out@;
    let mut i: usize = from;
    while i < to
        invariant
            from <= i <= to <= d@.len(),
            all_digits(d@),
            out@ == start + text_of(d@.subrange(from as int, i as int)),
        decreases to - i,
    {
        out.append(digit_text(d[i]));
        assert(text_of(d@.subrange(from as int, i + 1)) =~= text_of(
            d@.subrange(from as int, i as int),
        ).push(digit_char(d@[i as int])));
        i = i + 1;
    }
}

/// Appends `n` zero digits.
fn push_zeros(out: &mut String, n: u64)
    ensures
        final(out)@ == old(out)@ + text_of(zeros(n as nat)),
{
    let ghost start = out@;
    let mut i: u64 = 0;
    while i < n
        invariant
            i <= n,
            out@ == start + text_of(zeros(i as nat)),
        decreases n - i,
    {
        out.append(digit_text(0));
        assert(text_of(zeros((i + 1) as nat)) =~= text_of(zeros(i as nat)).push(digit_char(0)));
        i = i + 1;
    }
}

/// Appends the integer digits of `(d[..t], k)`.
fn push_int_text(out: &mut String, d: &Vec<u8>, t: usize, k: u64)
    requires
        t <= d@.len(),
        all_digits(d@),
    ensures
        final(out)@ == old(out)@ + int_text(d@.take(t as int), k as nat),
{
    let ghost tt = d@.take(t as int);
    proof {
        reveal_strlit("0");
    }
    if (k as u128) >= (t as u128) {
        out.append("0");
        return;
    }
    let m: usize = t - k as usize;
    let ghost dm = tt.take(m as int);
    assert(dm =~= d@.take(m as int));
    let mut z: usize = 0;
    assert(dm.skip(0) =~= dm);
    while z < m && d[z] == 0
        invariant
            z <= m <= t <= d@.len(),
            dm == d@.take(m as int),
            skip_zeros(dm) == skip_zeros(dm.skip(z as int)),
        decreases m - z,
    {
        assert(dm.skip(z as int).skip(1) =~= dm.skip(z + 1));
        z = z + 1;
    }
    if z == m {
        assert(dm.skip(z as int) =~= Seq::<u8>::empty());
        out.append("0");
    } else {
        assert(dm.skip(z as int) =~= d@.subrange(z as int, m as int));
        push_digits(out, d, z, m);
    }
}

/// Appends the fraction of `(d[..t], k)`.
fn push_frac_text(out: &mut String, d: &Vec<u8>, t: usize, k: u64)
    requires
        t <= d@.len(),
        all_digits(d@),
    ensures
        final(out)@ == old(out)@ + frac_text(d@.take(t as int), k as nat),
{
    let ghost tt = d@.take(t as int);
    let ghost start = out@;
    proof {
        reveal_strlit(".");
    }
    if k == 0 {
        assert(out@ =~= start + frac_text(tt, 0));
        return;
    }
    out.append(".");
    if (k as u128) >= (t as u128) {
        push_zeros(out, k - t as u64);
        push_digits(out, d, 0, t);
        assert(d@.subrange(0, t as int) =~= tt);
        assert(text_of(zeros((k - t) as nat) + tt) =~= text_of(zeros((k - t) as nat)) + text_of(tt));
        assert(out@ =~= start + frac_text(tt, k as nat));
    } else {
        let m: usize = t - k as usize;
        push_digits(out, d, m, t);
        assert(tt.skip(m as int) =~= d@.subrange(m as int, t as int));
        assert(out@ =~= start + frac_text(tt, k as nat));
    }
}

/// The canonical text of a value (see `canonical`): no exponent, no
/// trailing zero after a point and no trailing point.
pub fn to_canonical_string(d: &Decimal) -> (r: String)
    requires
        d.wf(),
    ensures
        r@ == canonical(d.negative, d.digits@, d.scale as nat),
{
    let mut out = String::new();
    proof {
        reveal_strlit("0");
        reveal_strlit("-");
    }
    if d.is_zero() {
        out.append("0");
        return out;
    }
    let ghost ds = d.digits@;
    let ghost sn = d.scale as nat;
    let mut t: usize = d.digits.len();
    let mut k: u64 = d.scale;
    assert(ds.take(t as int) =~= ds);
    while k > 0 && t > 0 && d.digits[t - 1] == 0
        invariant
            t <= ds.len(),
            ds == d.digits@,
            strip_zeros(ds, sn) == strip_zeros(ds.take(t as int), k as nat),
        decreases t,
    {
        assert(ds.take(t as int).drop_last() =~= ds.take(t - 1));
        t = t - 1;
        k = k - 1;
    }
    assert(strip_zeros(ds, sn) == (ds.take(t as int), k as nat));
    if d.negative {
        out.append("-");
    }
    assert(out@ == sign_text(d.negative));
    push_int_text(&mut out, &d.digits, t, k);
    push_frac_text(&mut out, &d.digits, t, k);
    out
}

} // verus!
