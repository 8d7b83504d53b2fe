//! Algebraic and textual laws of the calculator, proved over the models that
//! the operations' contracts use.
use crate::decimal::{
    add_model, all_digits, digits_val, lemma_digits_concat, lemma_mul_same_value,
    lemma_pow10_add, lemma_same_value_trans, mul_model, pow10,
    pow_model, same_value, Decimal,
};
use crate::text::{
    body, canonical, char_digit, digit_chars, dot_count, frac_len, frac_part, frac_text, has_sign, int_part,
    int_text, is_digit_char, lemma_chars_concat, lemma_digit_char, lemma_leading_zeros,
    lemma_skip_zeros, lemma_strip_zeros, lemma_text_of_digits, literal_decimal, sign_text,
    skip_zeros, strip_zeros, text_of, valid_literal, zeros,
};
use vstd::prelude::*;

verus! {

/// Adding zero (at any scale) leaves a value unchanged.
pub proof fn lemma_add_zero(a: (int, nat), z: (int, nat))
    requires
        z.0 == 0,
    ensures
        same_value(add_model(a, z), a),
{
    crate::decimal::lemma_pow10_add(a.1, z.1);
    let (p, q) = (pow10(a.1), pow10(z.1));
    assert((a.0 * q + 0 * p) * p == a.0 * (p * q)) by (nonlinear_arith);
}

/// Multiplying by one (at any scale) leaves a value unchanged.
pub proof fn lemma_mul_one(a: (int, nat), one: (int, nat))
    requires
        same_value(one, (1, 0)),
    ensures
        same_value(mul_model(a, one), a),
{
    crate::decimal::lemma_pow10_add(a.1, one.1);
    let (p, q) = (pow10(a.1), pow10(one.1));
    assert(one.0 * 1 == 1 * q);
    assert((a.0 * one.0) * p == a.0 * (p * q)) by (nonlinear_arith)
        requires
            one.0 == q,
    ;
}

/// Multiplying by zero (at any scale) gives zero.
pub proof fn lemma_mul_zero(a: (int, nat), z: (int, nat))
    requires
        z.0 == 0,
    ensures
        same_value(mul_model(a, z), (0, 0)),
{
    assert(a.0 * z.0 == 0) by (nonlinear_arith)
        requires
            z.0 == 0,
    ;
    assert(0 * pow10(a.1 + z.1) == 0);
}

/// A result equal to `a + 0` equals `a`; one equal to `a * 1` equals `a`;
/// one equal to `a * 0` is zero.
pub proof fn lemma_identity_results(a: (int, nat), z: (int, nat), one: (int, nat), r: (int, nat))
    requires
        z.0 == 0,
        same_value(one, (1, 0)),
    ensures
        same_value(r, add_model(a, z)) ==> same_value(r, a),
        same_value(r, mul_model(a, one)) ==> same_value(r, a),
        same_value(r, mul_model(a, z)) ==> same_value(r, (0, 0)),
{
    lemma_add_zero(a, z);
    lemma_mul_one(a, one);
    lemma_mul_zero(a, z);
    if same_value(r, add_model(a, z)) {
        lemma_same_value_trans(r, add_model(a, z), a);
    }
    if same_value(r, mul_model(a, one)) {
        lemma_same_value_trans(r, mul_model(a, one), a);
    }
    if same_value(r, mul_model(a, z)) {
        lemma_same_value_trans(r, mul_model(a, z), (0, 0));
    }
}

/// Of two results equal to `a^e` and `a^(e+1)`, the second equals the
/// first multiplied by `a`.
pub proof fn lemma_power_results(a: (int, nat), e: nat, p: (int, nat), q: (int, nat))
    requires
        same_value(p, pow_model(a, e)),
        same_value(q, pow_model(a, e + 1)),
    ensures
        same_value(q, mul_model(p, a)),
{
    lemma_mul_same_value(pow_model(a, e), p, a);
    lemma_same_value_trans(q, mul_model(pow_model(a, e), a), mul_model(p, a));
}

/// A power with exponent zero is one, and each further step multiplies the
/// previous power by the base once more.
pub proof fn lemma_power_step(a: (int, nat), e: nat)
    ensures
        pow_model(a, 0) == (1int, 0nat),
        pow_model(a, e + 1) == mul_model(pow_model(a, e), a),
{
}

/// The digits that `int_text(t, k)` writes: the integer digits, or a lone
/// zero when there are none.
pub open spec fn int_digits(t: Seq<u8>, k: nat) -> Seq<u8> {
    if int_part(t, k).len() == 0 {
        seq![0u8]
    } else {
        int_part(t, k)
    }
}

/// The integer and fraction digits of a stripped pair, and what they spell.
proof fn lemma_parts(t: Seq<u8>, k: nat)
    requires
        all_digits(t),
    ensures
        all_digits(int_digits(t, k)),
        int_digits(t, k).len() > 0,
        int_text(t, k) == text_of(int_digits(t, k)),
        all_digits(frac_part(t, k)),
        frac_part(t, k).len() == k,
        k > 0 && t.len() > 0 ==> frac_part(t, k).last() == t.last(),
        digits_val(int_digits(t, k) + frac_part(t, k)) == digits_val(t),
{
    let ip = int_part(t, k);
    let fp = frac_part(t, k);
    let id = int_digits(t, k);
    assert(seq![0u8].drop_last() =~= Seq::<u8>::empty());
    assert(digits_val(Seq::<u8>::empty()) == 0);
    assert(digits_val(seq![0u8]) == 0);
    assert(text_of(seq![0u8]) =~= seq!['0']) by {
        lemma_digit_char(0);
    }
    lemma_digits_concat(id, fp);
    if k >= t.len() {
        assert(forall|i: int| 0 <= i < fp.len() ==> #[trigger] fp[i] == (if i < k - t.len() {
            0u8
        } else {
            t[i - (k - t.len())]
        }));
        lemma_leading_zeros((k - t.len()) as nat, t);
        assert(id == seq![0u8]);
        let pk = pow10(k);
        assert(digits_val(id) * pk == 0) by (nonlinear_arith)
            requires
                digits_val(id) == 0,
        ;
    } else {
        let m = t.len() - k;
        let head = t.take(m);
        assert(all_digits(head));
        lemma_skip_zeros(head);
        assert(t =~= head + fp);
        lemma_digits_concat(head, fp);
        if ip.len() == 0 {
            assert(digits_val(head) == 0);
        }
        if k > 0 {
            assert(fp.last() == t.last());
        }
    }
}

/// The canonical text of zero is `0`; and where the canonical text holds a
/// point, it ends neither in a point nor in a zero.
pub proof fn lemma_canonical_shape(negative: bool, d: Seq<u8>, s: nat)
    requires
        all_digits(d),
    ensures
        digits_val(d) == 0 ==> canonical(negative, d, s) == seq!['0'],
        canonical(negative, d, s).len() > 0,
        forall|i: int|
            0 <= i < canonical(negative, d, s).len() && #[trigger] canonical(negative, d, s)[i]
                == '.' ==> canonical(negative, d, s).last() != '0' && canonical(
                negative,
                d,
                s,
            ).last() != '.',
{
    let c = canonical(negative, d, s);
    if digits_val(d) != 0 {
        lemma_strip_zeros(d, s);
        let (t, k) = strip_zeros(d, s);
        assert(all_digits(t));
        lemma_parts(t, k);
        let id = int_digits(t, k);
        lemma_text_of_digits(id);
        if t.len() == 0 {
            assert(digits_val(t) == 0);
            assert(0 * pow10((s - k) as nat) == 0);
        }
        if k == 0 {
            let st = sign_text(negative);
            let it = int_text(t, k);
            assert(c =~= st + it);
            assert forall|i: int| 0 <= i < c.len() implies c[i] != '.' by {
                if i >= st.len() {
                    assert(c[i] == it[i - st.len()]);
                }
            }
        } else {
            let fp = frac_part(t, k);
            assert(all_digits(fp));
            lemma_text_of_digits(fp);
            assert(c.last() == text_of(fp).last());
            assert(t.last() == t[t.len() - 1]);
            lemma_digit_char(t.last());
        }
    }
}

/// The canonical text of a non-zero value is a valid literal that reads as
/// its sign, the stripped digits (a lone zero in front where the integer
/// part is empty, zeros padded in the fraction) and the stripped scale.
proof fn lemma_canonical_reads(negative: bool, ds: Seq<u8>, s: nat)
    requires
        all_digits(ds),
        digits_val(ds) != 0,
    ensures
        ({
            let c = canonical(negative, ds, s);
            let (t, k) = strip_zeros(ds, s);
            &&& valid_literal(c)
            &&& digit_chars(body(c)) == int_digits(t, k) + frac_part(t, k)
            &&& frac_len(body(c)) == k
            &&& (has_sign(c) && c[0] == '-') == negative
        }),
{
    let c = canonical(negative, ds, s);
    lemma_strip_zeros(ds, s);
    let (t, k) = strip_zeros(ds, s);
    assert(all_digits(t));
    lemma_parts(t, k);
    let id = int_digits(t, k);
    let fp = frac_part(t, k);
    lemma_text_of_digits(id);
    lemma_text_of_digits(fp);
    let it = int_text(t, k);
    let ft = frac_text(t, k);
    let b = it + ft;
    lemma_chars_concat(it, ft);
    if k > 0 {
        let dot = seq!['.'];
        assert(dot.drop_last() =~= Seq::<char>::empty());
        assert(dot.last() == '.');
        assert(dot_count(Seq::<char>::empty()) == 0);
        assert(digit_chars(Seq::<char>::empty()) =~= Seq::<u8>::empty());
        assert(dot_count(dot) == 1);
        assert(digit_chars(dot) =~= Seq::<u8>::empty());
        assert(frac_len(it + dot) == 0);
        lemma_chars_concat(dot, text_of(fp));
        lemma_chars_concat(it, dot);
        lemma_chars_concat(it + dot, text_of(fp));
        assert(b =~= (it + dot) + text_of(fp));
        assert(digit_chars(b) =~= id + fp);
    } else {
        assert(ft =~= Seq::<char>::empty());
        assert(b =~= it);
        assert(fp =~= Seq::<u8>::empty());
        assert(id + fp =~= id);
        assert(frac_len(it) == 0) by {
            lemma_frac_len_no_dot(it);
        }
    }
    assert(it[0] == text_of(id)[0]);
    assert(is_digit_char(it[0]));
    if negative {
        assert(c =~= seq!['-'] + b);
        assert(body(c) =~= b);
    } else {
        assert(c =~= b);
        assert(body(c) == b);
    }
    assert forall|i: int| 0 <= i < b.len() implies is_digit_char(#[trigger] b[i]) || b[i]
        == '.' by {
        if i >= it.len() {
            if k > 0 {
                assert(b[i] == ft[i - it.len()]);
                if i > it.len() {
                    assert(ft[i - it.len()] == text_of(fp)[i - it.len() - 1]);
                }
            }
        }
    }
}

/// The canonical text of every value is a valid literal, so reading it
/// back always succeeds.
pub proof fn lemma_canonical_is_literal(d: Decimal)
    requires
        d.wf(),
    ensures
        valid_literal(canonical(d.negative, d.digits@, d.scale as nat)),
{
    let ds = d.digits@;
    let s = d.scale as nat;
    if digits_val(ds) == 0 {
        let z = seq!['0'];
        assert(canonical(d.negative, ds, s) == z);
        assert(z.drop_last() =~= Seq::<char>::empty());
        assert(z.last() == '0');
        assert(dot_count(Seq::<char>::empty()) == 0);
        assert(digit_chars(Seq::<char>::empty()) =~= Seq::<u8>::empty());
        assert(dot_count(z) == 0);
        assert(body(z) == z);
        assert(digit_chars(z).len() == 1);
    } else {
        lemma_canonical_reads(d.negative, ds, s);
    }
}

/// Reading the canonical text of a value back gives the same number:
/// the text is a valid literal, and what it reads as equals the value.
pub proof fn lemma_round_trip(d: Decimal, p: Decimal)
    requires
        d.wf(),
        literal_decimal(p, canonical(d.negative, d.digits@, d.scale as nat)),
    ensures
        valid_literal(canonical(d.negative, d.digits@, d.scale as nat)),
        same_value(p@, d@),
{
    let ds = d.digits@;
    let s = d.scale as nat;
    let c = canonical(d.negative, ds, s);
    if digits_val(ds) == 0 {
        let z = seq!['0'];
        assert(c == z);
        assert(z.drop_last() =~= Seq::<char>::empty());
        assert(z.last() == '0');
        assert(char_digit('0') == 0);
        assert(digit_chars(Seq::<char>::empty()) =~= Seq::<u8>::empty());
        assert(dot_count(z) == 0);
        assert(frac_len(z) == 0);
        assert(body(z) == z);
        assert(digit_chars(z).len() == 1);
        assert(digits_val(p.digits@) == 0) by {
            let q = p.digits@;
            assert(q =~= seq![0u8]);
            assert(q.drop_last() =~= Seq::<u8>::empty());
            assert(digits_val(Seq::<u8>::empty()) == 0);
        }
        assert(d@.0 == 0);
        assert(p@.0 == 0);
        let (x, y) = (pow10(d@.1), pow10(p@.1));
        assert(p@.0 * x == 0 && d@.0 * y == 0) by (nonlinear_arith)
            requires
                p@.0 == 0,
                d@.0 == 0,
        ;
    } else {
        lemma_canonical_reads(d.negative, ds, s);
        lemma_strip_zeros(ds, s);
        let (t, k) = strip_zeros(ds, s);
        assert(all_digits(t));
        lemma_parts(t, k);
        let v = digits_val(t) as int;
        assert(digits_val(p.digits@) == v);
        assert(p.scale == k);
        assert(p.negative == d.negative);
        lemma_pow10_add((s - k) as nat, k);
        let (a, e) = (pow10((s - k) as nat), pow10(k));
        assert(pow10(s) == a * e);
        assert(digits_val(ds) == v * a);
        assert(v * (a * e) == (v * a) * e) by (nonlinear_arith);
        assert((-v) * (a * e) == (-(v * a)) * e) by (nonlinear_arith);
        if d.negative {
            assert(p@.0 == -v);
            assert(d@.0 == -(v * a));
        } else {
            assert(p@.0 == v);
            assert(d@.0 == v * a);
        }
        assert(p@.0 * pow10(d@.1) == d@.0 * pow10(p@.1));
    }
}

/// A text without a point has no fraction.
proof fn lemma_frac_len_no_dot(b: Seq<char>)
    requires
        dot_count(b) == 0,
    ensures
        frac_len(b) == 0,
    decreases b.len(),
{
    if b.len() > 0 {
        lemma_frac_len_no_dot(b.drop_last());
    }
}

} // verus!
