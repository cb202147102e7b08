//! Whether a decimal floating-point text has a finite value: its magnitude
//! stays below 2^1024 − 2^970, the least magnitude that rounds to infinity
//! in IEEE 754 binary64 under round-to-nearest, ties-to-even.
use vstd::prelude::*;
use crate::binding::{all_digits, decimal_float_syntax, decimal_value, digits_end, digits_end_exec};
use crate::text::chars_of;

verus! {

/// `10^n`.
pub open spec fn pow10(n: nat) -> nat
    decreases n,
{
    if n == 0 {
        1
    } else {
        10 * pow10((n - 1) as nat)
    }
}

/// Powers of ten multiply by adding exponents.
pub proof fn lemma_pow10_add(a: nat, b: nat)
    ensures
        pow10(a + b) == pow10(a) * pow10(b),
    decreases a,
{
    if a == 0 {
        assert(pow10(0) == 1);
        assert(a + b == b);
        assert(1 * pow10(b) == pow10(b));
    } else {
        let a1 = (a - 1) as nat;
        lemma_pow10_add(a1, b);
        assert((a + b) as nat - 1 == a1 + b);
        assert(pow10(a + b) == 10 * pow10(a1 + b));
        assert(pow10(a) == 10 * pow10(a1));
        let x = pow10(a1);
        let y = pow10(b);
        assert(10 * (x * y) == (10 * x) * y) by (nonlinear_arith);
    }
}

/// Powers of ten are positive and grow with the exponent.
pub proof fn lemma_pow10_mono(a: nat, b: nat)
    requires
        a <= b,
    ensures
        0 < pow10(a) <= pow10(b),
    decreases b,
{
    if b > a {
        lemma_pow10_mono(a, (b - 1) as nat);
    } else if a > 0 {
        lemma_pow10_mono((a - 1) as nat, (a - 1) as nat);
    }
}

/// A text of digits is worth less than ten to its length.
pub proof fn lemma_decimal_below(s: Seq<char>)
    requires
        all_digits(s),
    ensures
        decimal_value(s) < pow10(s.len()),
    decreases s.len(),
{
    if s.len() > 0 {
        let t = s.drop_last();
        assert(all_digits(t)) by {
            assert forall|i: int| 0 <= i < t.len() implies '0' <= #[trigger] t[i] && t[i] <= '9' by {
                assert(t[i] == s[i]);
            }
        }
        lemma_decimal_below(t);
        let d = ((s.last() as u32) - 48) as nat;
        assert(d <= 9) by {
            assert('0' <= s[s.len() - 1] && s[s.len() - 1] <= '9');
        }
        assert(decimal_value(t) * 10 + d < pow10(t.len()) * 10) by (nonlinear_arith)
            requires
                decimal_value(t) < pow10(t.len()),
                d <= 9,
        ;
    }
}

/// Splitting a text of digits at `k`: the head, shifted, plus the tail.
pub proof fn lemma_decimal_split(s: Seq<char>, k: int)
    requires
        0 <= k <= s.len(),
    ensures
        decimal_value(s) == decimal_value(s.take(k)) * pow10((s.len() - k) as nat) + decimal_value(
            s.skip(k),
        ),
    decreases s.len(),
{
    if k == s.len() {
        assert(s.take(k) =~= s);
        assert(s.skip(k) =~= Seq::<char>::empty());
        assert(pow10(0) == 1);
        assert(decimal_value(s.skip(k)) == 0);
        assert(decimal_value(s.take(k)) * 1 == decimal_value(s.take(k)));
    } else {
        let t = s.drop_last();
        lemma_decimal_split(t, k);
        assert(t.take(k) =~= s.take(k));
        assert(s.skip(k).drop_last() =~= t.skip(k));
        assert(s.skip(k).last() == s.last());
        let a = decimal_value(s.take(k));
        let p = pow10((t.len() - k) as nat);
        let c = decimal_value(t.skip(k));
        let d = ((s.last() as u32) - 48) as nat;
        assert(decimal_value(s) == decimal_value(t) * 10 + d);
        assert(decimal_value(s.skip(k)) == c * 10 + d);
        assert(((s.len() - k) as nat) - 1 == (t.len() - k) as nat);
        assert(pow10((s.len() - k) as nat) == 10 * p);
        assert((a * p + c) * 10 + d == a * (10 * p) + (c * 10 + d)) by (nonlinear_arith);
    }
}

/// A text of zeros is worth nothing.
pub proof fn lemma_decimal_zeros(s: Seq<char>)
    requires
        forall|i: int| 0 <= i < s.len() ==> #[trigger] s[i] == '0',
    ensures
        decimal_value(s) == 0,
    decreases s.len(),
{
    if s.len() > 0 {
        lemma_decimal_zeros(s.drop_last());
    }
}

/// A text of digits that starts with a non-zero digit is worth at least ten
/// to its length less one.
pub proof fn lemma_decimal_at_least(s: Seq<char>)
    requires
        all_digits(s),
        s.len() > 0,
        s[0] != '0',
    ensures
        pow10((s.len() - 1) as nat) <= decimal_value(s),
{
    lemma_decimal_split(s, 1);
    let h = s.take(1);
    assert(h.drop_last() =~= Seq::<char>::empty());
    assert(h.last() == s[0]);
    assert(decimal_value(h) >= 1) by {
        assert('0' <= s[0] && s[0] <= '9');
    }
    let p = pow10((s.len() - 1) as nat);
    assert(decimal_value(h) * p >= p) by (nonlinear_arith)
        requires
            decimal_value(h) >= 1,
    ;
}

/// Appending zeros multiplies by a power of ten.
pub proof fn lemma_decimal_pad(s: Seq<char>, z: Seq<char>)
    requires
        forall|i: int| 0 <= i < z.len() ==> #[trigger] z[i] == '0',
    ensures
        decimal_value(s + z) == decimal_value(s) * pow10(z.len()),
{
    let x = s + z;
    lemma_decimal_split(x, s.len() as int);
    assert(x.take(s.len() as int) =~= s);
    assert(x.skip(s.len() as int) =~= z);
    lemma_decimal_zeros(z);
}

/// Leading zeros change nothing.
pub proof fn lemma_decimal_leading_zeros(s: Seq<char>, k: int)
    requires
        0 <= k <= s.len(),
        forall|i: int| 0 <= i < k ==> #[trigger] s[i] == '0',
    ensures
        decimal_value(s) == decimal_value(s.skip(k)),
{
    lemma_decimal_split(s, k);
    assert forall|i: int| 0 <= i < s.take(k).len() implies #[trigger] s.take(k)[i] == '0' by {
        assert(s.take(k)[i] == s[i]);
    }
    lemma_decimal_zeros(s.take(k));
    let p = pow10((s.len() - k) as nat);
    assert(0 * p == 0) by (nonlinear_arith);
}

/// Two digit texts of one length compare as their first differing digits
/// do.
pub proof fn lemma_decimal_first_difference(x: Seq<char>, y: Seq<char>, k: int)
    requires
        all_digits(x),
        all_digits(y),
        x.len() == y.len(),
        0 <= k < x.len(),
        x.take(k) == y.take(k),
        x[k] < y[k],
    ensures
        decimal_value(x) < decimal_value(y),
{
    let n = x.len();
    lemma_decimal_split(x, k);
    lemma_decimal_split(y, k);
    let xs = x.skip(k);
    let ys = y.skip(k);
    lemma_decimal_split(xs, 1);
    lemma_decimal_split(ys, 1);
    let xt = xs.skip(1);
    assert(all_digits(xt)) by {
        assert forall|i: int| 0 <= i < xt.len() implies '0' <= #[trigger] xt[i] && xt[i] <= '9' by {
            assert(xt[i] == x[k + 1 + i]);
        }
    }
    lemma_decimal_below(xt);
    let xh = xs.take(1);
    let yh = ys.take(1);
    assert(xh.drop_last() =~= Seq::<char>::empty());
    assert(yh.drop_last() =~= Seq::<char>::empty());
    assert(xh.last() == x[k]);
    assert(yh.last() == y[k]);
    let dx = decimal_value(xh);
    let dy = decimal_value(yh);
    assert(dx < dy) by {
        assert('0' <= x[k] && x[k] <= '9');
        assert('0' <= y[k] && y[k] <= '9');
    }
    let p = pow10(xt.len());
    assert(xt.len() == n - k - 1);
    assert(dx * p + decimal_value(xt) < dy * p + decimal_value(ys.skip(1))) by (nonlinear_arith)
        requires
            dx < dy,
            decimal_value(xt) < p,
    ;
    let q = pow10((n - k) as nat);
    assert(decimal_value(x.take(k)) * q + decimal_value(xs) < decimal_value(x.take(k)) * q
        + decimal_value(ys));
}

// ---------------------------------------------------------------------------
// The parts of a float text
// ---------------------------------------------------------------------------
/// The decimal digits of 2^1024 − 2^970.
pub open spec fn bound_digits() -> Seq<char> {
    "179769313486231580793728971405303415079934132710037826936173778980444968292764750946649017977587207096330286416692887910946555547851940402630657488671505820681908902000708383676273854845817711531764475730270069855571366959622842914819860834936475292719074168444365510704342711559699508093042880177904174497792"@
}

/// 2^1024 − 2^970: binary64's largest finite magnitude plus half a unit in
/// its last place. Any decimal value at least this large rounds to
/// infinity; any smaller one rounds to a finite number.
pub open spec fn float_bound() -> nat {
    decimal_value(bound_digits())
}

/// The length of the sign of a float text.
pub open spec fn sign_len(s: Seq<char>) -> int {
    if s.len() > 0 && (s[0] == '+' || s[0] == '-') {
        1
    } else {
        0
    }
}

/// Where the integer digits end.
pub open spec fn int_end(s: Seq<char>) -> int {
    digits_end(s, sign_len(s))
}

/// Whether a decimal point follows the integer digits.
pub open spec fn has_point(s: Seq<char>) -> bool {
    int_end(s) < s.len() && s[int_end(s)] == '.'
}

/// Where the fraction digits end.
pub open spec fn frac_end(s: Seq<char>) -> int {
    if has_point(s) {
        digits_end(s, int_end(s) + 1)
    } else {
        int_end(s)
    }
}

/// The integer digits followed by the fraction digits.
pub open spec fn mantissa_digits(s: Seq<char>) -> Seq<char> {
    s.subrange(sign_len(s), int_end(s)) + if has_point(s) {
        s.subrange(int_end(s) + 1, frac_end(s))
    } else {
        Seq::empty()
    }
}

/// The number of fraction digits.
pub open spec fn frac_len(s: Seq<char>) -> int {
    if has_point(s) {
        frac_end(s) - int_end(s) - 1
    } else {
        0
    }
}

/// Where the exponent's digits start, past its `e` and sign.
pub open spec fn exponent_start(s: Seq<char>) -> int {
    let b = frac_end(s) + 1;
    if b < s.len() && (s[b] == '+' || s[b] == '-') {
        b + 1
    } else {
        b
    }
}

/// Whether the exponent is negative.
pub open spec fn exponent_negative(s: Seq<char>) -> bool {
    frac_end(s) < s.len() && frac_end(s) + 1 < s.len() && s[frac_end(s) + 1] == '-'
}

/// The magnitude of the exponent, 0 when there is none.
pub open spec fn exponent_magnitude(s: Seq<char>) -> nat {
    if frac_end(s) >= s.len() {
        0
    } else {
        decimal_value(s.subrange(exponent_start(s), s.len() as int))
    }
}

/// The signed value of the exponent, 0 when there is none.
pub open spec fn exponent_of(s: Seq<char>) -> int {
    if exponent_negative(s) {
        -(exponent_magnitude(s) as int)
    } else {
        exponent_magnitude(s) as int
    }
}

/// The text's value is its mantissa digits times ten to this power.
pub open spec fn decimal_scale(s: Seq<char>) -> int {
    exponent_of(s) - frac_len(s)
}

/// Whether `m × 10^e` is below `float_bound`.
pub open spec fn below_float_bound(m: nat, e: int) -> bool {
    if e >= 0 {
        m * pow10(e as nat) < float_bound()
    } else {
        m < float_bound() * pow10((-e) as nat)
    }
}

/// Whether a float text has a finite value as a binary64 number: its value
/// is zero or its magnitude is below `float_bound`.
pub open spec fn finite_float_text(s: Seq<char>) -> bool {
    let m = decimal_value(mantissa_digits(s));
    m == 0 || below_float_bound(m, decimal_scale(s))
}

/// `digits_end` stops at the first non-digit.
pub proof fn lemma_digits_end(s: Seq<char>, i: int)
    requires
        0 <= i <= s.len(),
    ensures
        i <= digits_end(s, i) <= s.len(),
        forall|j: int| i <= j < digits_end(s, i) ==> '0' <= #[trigger] s[j] && s[j] <= '9',
    decreases s.len() - i,
{
    if i < s.len() && '0' <= s[i] && s[i] <= '9' {
        lemma_digits_end(s, i + 1);
    }
}

/// The bound has 309 digits, the first of them 1.
pub proof fn lemma_bound_digits()
    ensures
        bound_digits().len() == 309,
        all_digits(bound_digits()),
        bound_digits()[0] == '1',
        pow10(308) <= float_bound() < pow10(309),
{
    reveal_strlit("179769313486231580793728971405303415079934132710037826936173778980444968292764750946649017977587207096330286416692887910946555547851940402630657488671505820681908902000708383676273854845817711531764475730270069855571366959622842914819860834936475292719074168444365510704342711559699508093042880177904174497792");
    lemma_decimal_below(bound_digits());
    lemma_decimal_at_least(bound_digits());
}

/// A value of `D` digits times `10^E` is below the bound when `D + E` is at
/// most 308, and not below it when `D + E` is at least 310.
proof fn lemma_scale_cases(m: nat, d: nat, e: int)
    requires
        d >= 1,
        pow10((d - 1) as nat) <= m < pow10(d),
    ensures
        d + e <= 308 ==> below_float_bound(m, e),
        d + e >= 310 ==> !below_float_bound(m, e),
{
    lemma_bound_digits();
    let l = float_bound();
    if e >= 0 {
        let en = e as nat;
        let pe = pow10(en);
        lemma_pow10_mono(0, en);
        if d + e <= 308 {
            lemma_pow10_add(d, en);
            lemma_pow10_mono(d + en, 308);
            assert(m * pe < pow10(d) * pe) by (nonlinear_arith)
                requires
                    m < pow10(d),
                    pe > 0,
            ;
        }
        if d + e >= 310 {
            lemma_pow10_add((d - 1) as nat, en);
            lemma_pow10_mono(309, ((d - 1) as nat + en) as nat);
            assert(m * pe >= pow10((d - 1) as nat) * pe) by (nonlinear_arith)
                requires
                    m >= pow10((d - 1) as nat),
                    pe > 0,
            ;
        }
    } else {
        let b = (-e) as nat;
        let pb = pow10(b);
        lemma_pow10_mono(0, b);
        if d + e <= 308 {
            lemma_pow10_mono(d, 308 + b);
            lemma_pow10_add(308, b);
            assert(pow10(308) * pb <= l * pb) by (nonlinear_arith)
                requires
                    pow10(308) <= l,
                    pb > 0,
            ;
        }
        if d + e >= 310 {
            lemma_pow10_mono(309 + b, (d - 1) as nat);
            lemma_pow10_add(309, b);
            assert(l * pb < pow10(309) * pb) by (nonlinear_arith)
                requires
                    l < pow10(309),
                    pb > 0,
            ;
        }
    }
}

/// `m × 10^e` against the bound, by equal-length digit texts, when `m` has
/// `D` digits and `D + e` is 309.
proof fn lemma_scale_309(sig: Seq<char>, e: int, x: Seq<char>, y: Seq<char>)
    requires
        all_digits(sig),
        sig.len() + e == 309,
        e >= 0 ==> x == sig + Seq::new(e as nat, |i: int| '0') && y == bound_digits(),
        e < 0 ==> x == sig && y == bound_digits() + Seq::new((-e) as nat, |i: int| '0'),
    ensures
        x.len() == y.len(),
        all_digits(x),
        all_digits(y),
        below_float_bound(decimal_value(sig), e) == (decimal_value(x) < decimal_value(y)),
{
    lemma_bound_digits();
    if e >= 0 {
        let z = Seq::new(e as nat, |i: int| '0');
        lemma_decimal_pad(sig, z);
        assert(all_digits(x)) by {
            assert forall|i: int| 0 <= i < x.len() implies '0' <= #[trigger] x[i] && x[i] <= '9' by {
                if i < sig.len() {
                    assert(x[i] == sig[i]);
                } else {
                    assert(x[i] == z[i - sig.len()]);
                }
            }
        }
    } else {
        let z = Seq::new((-e) as nat, |i: int| '0');
        lemma_decimal_pad(bound_digits(), z);
        assert(all_digits(y)) by {
            assert forall|i: int| 0 <= i < y.len() implies '0' <= #[trigger] y[i] && y[i] <= '9' by {
                if i < 309 {
                    assert(y[i] == bound_digits()[i]);
                } else {
                    assert(y[i] == z[i - 309]);
                }
            }
        }
    }
}

/// Whether one digit text is worth less than another of the same length.
fn digits_less(x: &[char], y: &[char]) -> (r: bool)
    requires
        x@.len() == y@.len(),
        all_digits(x@),
        all_digits(y@),
    ensures
        r == (decimal_value(x@) < decimal_value(y@)),
{
    let mut k: usize = 0;
    while k < x.len()
        invariant
            x@.len() == y@.len(),
            all_digits(x@),
            all_digits(y@),
            k <= x@.len(),
            x@.take(k as int) == y@.take(k as int),
        decreases x@.len() - k,
    {
        if x[k] != y[k] {
            proof {
                if x@[k as int] < y@[k as int] {
                    lemma_decimal_first_difference(x@, y@, k as int);
                } else {
                    lemma_decimal_first_difference(y@, x@, k as int);
                }
            }
            return x[k] < y[k];
        }
        proof {
            assert(x@.take(k + 1) =~= x@.take(k as int).push(x@[k as int]));
            assert(y@.take(k + 1) =~= y@.take(k as int).push(y@[k as int]));
        }
        k += 1;
    }
    proof {
        assert(x@.take(k as int) =~= x@);
        assert(y@.take(k as int) =~= y@);
    }
    false
}

/// `n` zeros after `v`.
fn push_zeros(v: &mut Vec<char>, n: usize)
    ensures
        final(v)@ == old(v)@ + Seq::new(n as nat, |i: int| '0'),
{
    let ghost start = v@;
    for k in 0..n
        invariant
            v@ == start + Seq::new(k as nat, |i: int| '0'),
    {
        v.push('0');
        assert(v@ =~= start + Seq::new((k + 1) as nat, |i: int| '0'));
    }
}

/// The digits of the bound, in a vector.
fn bound_digit_chars() -> (v: Vec<char>)
    ensures
        v@ == bound_digits(),
{
    let v = chars_of("179769313486231580793728971405303415079934132710037826936173778980444968292764750946649017977587207096330286416692887910946555547851940402630657488671505820681908902000708383676273854845817711531764475730270069855571366959622842914819860834936475292719074168444365510704342711559699508093042880177904174497792");
    proof {
        reveal_strlit("179769313486231580793728971405303415079934132710037826936173778980444968292764750946649017977587207096330286416692887910946555547851940402630657488671505820681908902000708383676273854845817711531764475730270069855571366959622842914819860834936475292719074168444365510704342711559699508093042880177904174497792");
    }
    v
}

/// The mantissa digits of a float text, with its frac length, the end of
/// its fraction digits and the start of its exponent digits.
fn mantissa_of(s: &[char]) -> (r: (Vec<char>, usize, usize))
    requires
        decimal_float_syntax(s@),
    ensures
        r.0@ == mantissa_digits(s@),
        all_digits(r.0@),
        r.1 == frac_len(s@),
        r.2 == frac_end(s@),
        r.0@.len() <= s@.len(),
        r.1 <= s@.len(),
{
    let ghost t = s@;
    let a: usize = if s.len() > 0 && (s[0] == '+' || s[0] == '-') { 1 } else { 0 };
    let i1 = digits_end_exec(s, a);
    let hp = i1 < s.len() && s[i1] == '.';
    let i2 = if hp { digits_end_exec(s, i1 + 1) } else { i1 };
    proof {
        lemma_digits_end(t, a as int);
        if hp {
            lemma_digits_end(t, i1 + 1);
        }
    }
    assert(a == sign_len(t) && i1 == int_end(t) && hp == has_point(t) && i2 == frac_end(t));
    let mut md: Vec<char> = Vec::new();
    for k in a..i1
        invariant
            a <= i1 <= s@.len(),
            md@ == s@.subrange(a as int, k as int),
    {
        md.push(s[k]);
        assert(s@.subrange(a as int, k + 1) =~= s@.subrange(a as int, k as int).push(s@[k as int]));
    }
    let ghost int_part = md@;
    if hp {
        for k in (i1 + 1)..i2
            invariant
                i1 + 1 <= i2 <= s@.len(),
                md@ == int_part + s@.subrange(i1 + 1, k as int),
        {
            md.push(s[k]);
            assert(s@.subrange(i1 + 1, k + 1) =~= s@.subrange(i1 + 1, k as int).push(s@[k as int]));
        }
    }
    assert(md@ =~= mantissa_digits(t));
    assert(all_digits(md@)) by {
        assert forall|j: int| 0 <= j < md@.len() implies '0' <= #[trigger] md@[j] && md@[j] <= '9' by {
            if j < int_part.len() {
                assert(md@[j] == t[a + j]);
            } else {
                assert(md@[j] == t[i1 + 1 + (j - int_part.len())]);
            }
        }
    }
    let frac: usize = if hp { i2 - i1 - 1 } else { 0 };
    (md, frac, i2)
}

/// The exponent of a float text whose fraction digits end at `i2`: its
/// sign, and its value capped at `cap`.
fn exponent_capped(s: &[char], i2: usize, cap: u128) -> (r: (u128, bool))
    requires
        decimal_float_syntax(s@),
        i2 == frac_end(s@),
        0 < cap <= 0x1_0000_0000_0000_0191,
    ensures
        r.0 == (if exponent_magnitude(s@) >= cap {
            cap as nat
        } else {
            exponent_magnitude(s@)
        }),
        r.1 == exponent_negative(s@),
{
    let ghost t = s@;
    let len = s.len();
    if i2 >= len {
        return (0, false);
    }
    proof {
        lemma_digits_end(t, sign_len(t));
        if has_point(t) {
            lemma_digits_end(t, int_end(t) + 1);
        }
    }
    let b = i2 + 1;
    let neg = b < len && s[b] == '-';
    let b2 = if b < len && (s[b] == '+' || s[b] == '-') { b + 1 } else { b };
    proof {
        lemma_digits_end(t, b2 as int);
    }
    let mut ev: u128 = 0;
    let mut k = b2;
    while k < len
        invariant
            b2 <= k <= len,
            len == s@.len(),
            t == s@,
            0 < cap <= 0x1_0000_0000_0000_0191,
            ev <= cap,
            digits_end(t, b2 as int) == len,
            forall|j: int| b2 <= j < digits_end(t, b2 as int) ==> '0' <= #[trigger] t[j] && t[j] <= '9',
            ev == (if decimal_value(s@.subrange(b2 as int, k as int)) >= cap {
                cap as nat
            } else {
                decimal_value(s@.subrange(b2 as int, k as int))
            }),
        decreases len - k,
    {
        let c = s[k];
        let ghost pre = s@.subrange(b2 as int, k as int);
        proof {
            assert(s@.subrange(b2 as int, k + 1).drop_last() =~= pre);
            assert(s@.subrange(b2 as int, k + 1).last() == c);
            assert('0' <= t[k as int] && t[k as int] <= '9');
        }
        let dig = (c as u32 - 48) as u128;
        let nv = ev * 10 + dig;
        proof {
            let dv = decimal_value(pre);
            if dv >= cap {
                assert(dv * 10 + dig >= cap) by (nonlinear_arith)
                    requires
                        dv >= cap,
                ;
            }
        }
        ev = if nv >= cap { cap } else { nv };
        k += 1;
    }
    (ev, neg)
}

/// Decides `finite_float_text` for a text with float syntax.
pub fn float_text_is_finite(s: &[char]) -> (b: bool)
    requires
        decimal_float_syntax(s@),
    ensures
        b == finite_float_text(s@),
{
    let ghost t = s@;
    let (md, frac, i2) = mantissa_of(s);
    let mut z: usize = 0;
    while z < md.len() && md[z] == '0'
        invariant
            z <= md@.len(),
            forall|j: int| 0 <= j < z ==> #[trigger] md@[j] == '0',
        decreases md@.len() - z,
    {
        z += 1;
    }
    proof {
        lemma_decimal_leading_zeros(md@, z as int);
    }
    if z == md.len() {
        assert(md@.skip(z as int) =~= Seq::<char>::empty());
        return true;
    }
    let ghost sig = md@.skip(z as int);
    let d = md.len() - z;
    proof {
        assert(all_digits(sig)) by {
            assert forall|j: int| 0 <= j < sig.len() implies '0' <= #[trigger] sig[j] && sig[j] <= '9' by {
                assert(sig[j] == md@[z + j]);
            }
        }
        assert(sig[0] == md@[z as int]);
        lemma_decimal_below(sig);
        lemma_decimal_at_least(sig);
    }
    let len = s.len();
    let cap: u128 = (len as u128) + 401;
    let (ev, neg) = exponent_capped(s, i2, cap);
    let ghost e = decimal_scale(t);
    if ev == cap {
        proof {
            assert(exponent_magnitude(t) >= cap);
            lemma_scale_cases(decimal_value(sig), d as nat, e);
        }
        return neg;
    }
    let p: i128 = if neg {
        d as i128 - (ev as i128) - frac as i128
    } else {
        d as i128 + (ev as i128) - frac as i128
    };
    proof {
        assert(ev == exponent_magnitude(t));
        assert(p == d + e);
        lemma_scale_cases(decimal_value(sig), d as nat, e);
    }
    if p <= 308 {
        return true;
    }
    if p >= 310 {
        return false;
    }
    let mut x: Vec<char> = Vec::new();
    for k in z..md.len()
        invariant
            z <= md@.len(),
            x@ == md@.subrange(z as int, k as int),
    {
        x.push(md[k]);
        assert(md@.subrange(z as int, k + 1) =~= md@.subrange(z as int, k as int).push(md@[k as int]));
    }
    assert(x@ =~= sig);
    let mut y = bound_digit_chars();
    if d <= 309 {
        push_zeros(&mut x, 309 - d);
    } else {
        push_zeros(&mut y, d - 309);
    }
    proof {
        lemma_scale_309(sig, e, x@, y@);
    }
    digits_less(x.as_slice(), y.as_slice())
}

} // verus!
