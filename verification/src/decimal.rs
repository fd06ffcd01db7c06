//! Decimal digits: reading a number's text as the double nearest to it and
//! taking that double's integer part, and writing
//! integers in decimal.

use vstd::prelude::*;
use crate::json::{
    JsonValue, value_at, number_at, number_is_valid, is_ws, skip_ws, skip_digits, num_int_start, num_int_end, num_has_dot, num_frac_end, num_has_exp,
    num_exp_digits_start, number_end,
};
use crate::text::{chars_of, push_char, char_from_code};

verus! {

/// Ten to the power `k`.
pub open spec fn pow10(k: nat) -> nat
    decreases k,
{
    if k == 0 {
        1
    } else {
        10 * pow10((k - 1) as nat)
    }
}

/// The value of a decimal digit character.
pub open spec fn digit_value(c: char) -> nat {
    (c as u32 - '0' as u32) as nat
}

/// The number that a sequence of decimal digits spells (the empty sequence spells 0).
pub open spec fn digits_value(d: Seq<char>) -> nat
    decreases d.len(),
{
    if d.len() == 0 {
        0
    } else {
        digits_value(d.drop_last()) * 10 + digit_value(d.last())
    }
}

pub open spec fn all_digits(d: Seq<char>) -> bool {
    forall|i: int| 0 <= i < d.len() ==> '0' <= #[trigger] d[i] && d[i] <= '9'
}

/// The parts of a number's text `t`: its integer digits, its fraction digits,
/// and its exponent digits.
pub open spec fn int_digits(t: Seq<char>) -> Seq<char> {
    t.subrange(num_int_start(t, 0), num_int_end(t, 0))
}

pub open spec fn frac_digits(t: Seq<char>) -> Seq<char> {
    if num_has_dot(t, 0) {
        t.subrange(num_int_end(t, 0) + 1, num_frac_end(t, 0))
    } else {
        Seq::empty()
    }
}

pub open spec fn exp_digits(t: Seq<char>) -> Seq<char> {
    if num_has_exp(t, 0) {
        t.subrange(num_exp_digits_start(t, 0), number_end(t, 0))
    } else {
        Seq::empty()
    }
}

pub open spec fn is_negative(t: Seq<char>) -> bool {
    num_int_start(t, 0) == 1
}

pub open spec fn exp_is_negative(t: Seq<char>) -> bool {
    num_has_exp(t, 0) && num_exp_digits_start(t, 0) == num_frac_end(t, 0) + 2 && t[num_frac_end(
        t,
        0,
    ) + 1] == '-'
}

/// The power of ten that the digits of `t`, read as one integer, are scaled by.
pub open spec fn scale(t: Seq<char>) -> int {
    let e = digits_value(exp_digits(t)) as int;
    (if exp_is_negative(t) {
        -e
    } else {
        e
    }) - frac_digits(t).len()
}

/// The integer part (rounded toward zero) of the magnitude of the number `t` spells.
pub open spec fn magnitude_floor(t: Seq<char>) -> nat {
    let m = digits_value(int_digits(t) + frac_digits(t));
    let s = scale(t);
    if s >= 0 {
        m * pow10(s as nat)
    } else {
        m / pow10((-s) as nat)
    }
}

/// Two to the power `k`.
pub open spec fn pow2(k: nat) -> nat
    decreases k,
{
    if k == 0 {
        1
    } else {
        2 * pow2((k - 1) as nat)
    }
}

/// Five to the power `k`.
pub open spec fn pow5(k: nat) -> nat
    decreases k,
{
    if k == 0 {
        1
    } else {
        5 * pow5((k - 1) as nat)
    }
}

/// The position of the highest set bit of `m` (0 for `m < 2`).
pub open spec fn log2_floor(m: nat) -> nat
    decreases m,
{
    if m < 2 {
        0
    } else {
        1 + log2_floor(m / 2)
    }
}

/// For an integer `1 <= m < 2^53`, half the gap between `m` and the largest
/// double below it is `2^-half_gap_exp(m)`: that gap is `2^(e - 52)` for
/// `2^e < m < 2^(e + 1)`, and half as large when `m` is the power `2^e`.
pub open spec fn half_gap_exp(m: nat) -> nat {
    let e = log2_floor(m);
    if pow2(e) == m {
        (54 - e) as nat
    } else {
        (53 - e) as nat
    }
}

/// Whether the number `t` spells, whose integer part is `m - 1`, is at
/// least `m - 2^-half_gap_exp(m)`: then the double nearest to it is `m`
/// (halfway cases go to `m`, whose last bit is even), else its integer
/// part is `m - 1`. The fraction is `(digits % 10^d) / 10^d` with `d` the
/// number of places after the point.
pub open spec fn rounds_up_to(t: Seq<char>, m: nat) -> bool {
    let s = scale(t);
    let dv = digits_value(int_digits(t) + frac_digits(t));
    let j = half_gap_exp(m);
    s < 0 && (dv % pow10((-s) as nat)) * pow2(j) >= (pow2(j) - 1) * pow10((-s) as nat)
}

/// The number that `t` spells, read as the double nearest to it (as
/// `f64::from_str` reads it), limited to `0..=max`, then rounded toward
/// zero (as `as` turns a double into an integer). A negative number gives
/// 0; below `max`, the double nearest to a number with integer part `n`
/// is `n + 1` exactly when `rounds_up_to` says so, and has integer part `n`
/// otherwise.
pub open spec fn clamped_integer(t: Seq<char>, max: nat) -> nat {
    let n = magnitude_floor(t);
    if is_negative(t) {
        0
    } else if n >= max {
        max
    } else if rounds_up_to(t, n + 1) {
        n + 1
    } else {
        n
    }
}

/// Digit positions: everything that `skip_digits` steps over is a digit, and
/// it stops at the end or at a non-digit.
pub proof fn lemma_skip_digits(s: Seq<char>, i: int)
    requires
        0 <= i <= s.len(),
    ensures
        i <= skip_digits(s, i) <= s.len(),
        forall|j: int| i <= j < skip_digits(s, i) ==> '0' <= #[trigger] s[j] && s[j] <= '9',
        skip_digits(s, i) < s.len() ==> !('0' <= s[skip_digits(s, i)] && s[skip_digits(s, i)] <= '9'),
    decreases s.len() - i,
{
    if i < s.len() && '0' <= s[i] && s[i] <= '9' {
        lemma_skip_digits(s, i + 1);
    }
}

pub proof fn lemma_pow10_positive(k: nat)
    ensures
        pow10(k) >= 1,
    decreases k,
{
    if k > 0 {
        lemma_pow10_positive((k - 1) as nat);
    }
}

pub proof fn lemma_pow10_monotone(a: nat, b: nat)
    requires
        a <= b,
    ensures
        pow10(a) <= pow10(b),
    decreases b,
{
    if a < b {
        lemma_pow10_monotone(a, (b - 1) as nat);
        lemma_pow10_positive((b - 1) as nat);
    }
}

/// A sequence of `n` digits spells a number below `10^n`.
pub proof fn lemma_digits_value_bound(d: Seq<char>)
    requires
        all_digits(d),
    ensures
        digits_value(d) < pow10(d.len()),
    decreases d.len(),
{
    if d.len() > 0 {
        assert(all_digits(d.drop_last())) by {
            assert forall|i: int| 0 <= i < d.drop_last().len() implies '0' <= #[trigger] d.drop_last()[i]
                && d.drop_last()[i] <= '9' by {
                assert(d.drop_last()[i] == d[i]);
            }
        }
        lemma_digits_value_bound(d.drop_last());
        assert('0' <= d[d.len() - 1] && d[d.len() - 1] <= '9');
    }
}

/// The digits of `d` split at `n`: the first part shifted by the length of the second.
pub proof fn lemma_digits_value_split(d: Seq<char>, n: int)
    requires
        0 <= n <= d.len(),
    ensures
        digits_value(d) == digits_value(d.take(n)) * pow10((d.len() - n) as nat) + digits_value(
            d.skip(n),
        ),
    decreases d.len(),
{
    if n == d.len() {
        assert(d.take(n) =~= d);
        assert(d.skip(n) =~= Seq::empty());
        assert(digits_value(d.skip(n)) == 0);
        assert(pow10(0) == 1);
        assert(digits_value(d.take(n)) == digits_value(d));
        assert((d.len() - n) as nat == 0);
    } else {
        let e = d.drop_last();
        lemma_digits_value_split(e, n);
        assert(e.take(n) =~= d.take(n));
        assert(d.skip(n).drop_last() =~= e.skip(n));
        assert(d.skip(n).last() == d.last());
        assert(digits_value(d.skip(n)) == digits_value(d.skip(n).drop_last()) * 10 + digit_value(d.skip(n).last()));
        assert(digits_value(d) == digits_value(e) * 10 + digit_value(d.last()));
        let a = digits_value(d.take(n)) as int;
        let p = pow10((e.len() - n) as nat) as int;
        let b = digits_value(e.skip(n)) as int;
        let x = digit_value(d.last()) as int;
        assert(pow10((d.len() - n) as nat) == 10 * p);
        let q = pow10((d.len() - n) as nat) as int;
        assert((a * p + b) * 10 + x == a * q + (b * 10 + x)) by (nonlinear_arith)
            requires
                q == 10 * p,
        ;
        assert(digits_value(e) == a * p + b);
        assert(digits_value(d) == (a * p + b) * 10 + x);
        assert(digits_value(d.skip(n)) == b * 10 + x);
        assert(digits_value(d.take(n)) == a);
    }
}

/// Dropping the last `k` digits divides by `10^k`.
pub proof fn lemma_digits_value_div(d: Seq<char>, k: nat)
    requires
        all_digits(d),
    ensures
        k <= d.len() ==> digits_value(d) / pow10(k) == digits_value(d.take(d.len() - k)),
        k >= d.len() ==> digits_value(d) / pow10(k) == 0,
{
    lemma_pow10_positive(k);
    if k <= d.len() {
        let n = d.len() - k;
        lemma_digits_value_split(d, n);
        assert(all_digits(d.skip(n))) by {
            assert forall|i: int| 0 <= i < d.skip(n).len() implies '0' <= #[trigger] d.skip(n)[i]
                && d.skip(n)[i] <= '9' by {
                assert(d.skip(n)[i] == d[i + n]);
            }
        }
        lemma_digits_value_bound(d.skip(n));
        vstd::arithmetic::div_mod::lemma_fundamental_div_mod_converse(
            digits_value(d) as int,
            pow10(k) as int,
            digits_value(d.take(n)) as int,
            digits_value(d.skip(n)) as int,
        );
    }
    if k >= d.len() {
        lemma_digits_value_bound(d);
        lemma_pow10_monotone(d.len(), k);
        vstd::arithmetic::div_mod::lemma_fundamental_div_mod_converse(
            digits_value(d) as int,
            pow10(k) as int,
            0,
            digits_value(d) as int,
        );
    }
}

/// The first position at or after `i` that does not hold a decimal digit.
fn digits_end(c: &Vec<char>, i: usize) -> (r: usize)
    requires
        i <= c@.len(),
    ensures
        r == skip_digits(c@, i as int),
        i <= r <= c@.len(),
{
    let mut k = i;
    while k < c.len() && '0' <= c[k] && c[k] <= '9'
        invariant
            i <= k <= c@.len(),
            skip_digits(c@, k as int) == skip_digits(c@, i as int),
        decreases c@.len() - k,
    {
        k = k + 1;
    }
    k
}

/// The number that the digits `c[from..to]` spell, or `cap` if that is larger.
pub(crate) fn capped_digits_value(c: &Vec<char>, from: usize, to: usize, cap: u128) -> (r: u128)
    requires
        from <= to <= c@.len(),
        cap <= u64::MAX as u128 + 16,
        all_digits(c@.subrange(from as int, to as int)),
    ensures
        r == (if digits_value(c@.subrange(from as int, to as int)) < cap {
            digits_value(c@.subrange(from as int, to as int))
        } else {
            cap as nat
        }),
{
    let mut acc: u128 = 0;
    let mut k = from;
    assert(c@.subrange(from as int, from as int) =~= Seq::empty());
    while k < to
        invariant
            from <= k <= to <= c@.len(),
            cap <= u64::MAX as u128 + 16,
            all_digits(c@.subrange(from as int, to as int)),
            acc == (if digits_value(c@.subrange(from as int, k as int)) < cap {
                digits_value(c@.subrange(from as int, k as int))
            } else {
                cap as nat
            }),
        decreases to - k,
    {
        let ghost prev = digits_value(c@.subrange(from as int, k as int));
        assert(c@.subrange(from as int, k + 1).drop_last() =~= c@.subrange(from as int, k as int));
        assert(c@.subrange(from as int, to as int)[k - from] == c@[k as int]);
        let x = (c[k] as u32 - '0' as u32) as u128;
        let next = acc * 10 + x;
        acc = if next < cap {
            next
        } else {
            cap
        };
        k = k + 1;
    }
    acc
}


/// The digit character for `k < 10`.
pub open spec fn digit_char(k: nat) -> char {
    ('0' as u32 + k) as char
}

/// `n` written in decimal, without leading zeros.
pub open spec fn decimal(n: nat) -> Seq<char>
    decreases n,
{
    if n < 10 {
        seq![digit_char(n)]
    } else {
        decimal(n / 10).push(digit_char(n % 10))
    }
}

/// `n` written with at least two digits (a leading zero below ten).
pub open spec fn two_digits(n: nat) -> Seq<char> {
    if n < 10 {
        seq!['0', digit_char(n)]
    } else {
        decimal(n)
    }
}

/// The digit character for `k`.
pub fn digit_to_char(k: u64) -> (r: char)
    requires
        k < 10,
    ensures
        r == digit_char(k as nat),
{
    match char_from_code('0' as u32 + k as u32) {
        Some(c) => c,
        None => '0',
    }
}

/// Appends `n` written in decimal.
pub fn push_decimal(out: &mut String, n: u64)
    ensures
        final(out)@ == old(out)@ + decimal(n as nat),
    decreases n,
{
    if n >= 10 {
        push_decimal(out, n / 10);
    }
    let ghost before = out@;
    push_char(out, digit_to_char(n % 10));
    if n >= 10 {
        assert(out@ =~= old(out)@ + decimal(n as nat));
    } else {
        assert(out@ =~= old(out)@ + decimal(n as nat));
    }
}

/// Appends `n` written with at least two digits.
pub fn push_two_digits(out: &mut String, n: u64)
    ensures
        final(out)@ == old(out)@ + two_digits(n as nat),
{
    if n < 10 {
        push_char(out, '0');
        push_char(out, digit_to_char(n));
        assert(out@ =~= old(out)@ + two_digits(n as nat));
    } else {
        push_decimal(out, n);
    }
}

/// A digit character reads back as its digit.
pub proof fn lemma_digit_char(k: nat)
    requires
        k < 10,
    ensures
        digit_value(digit_char(k)) == k,
        '0' <= digit_char(k) <= '9',
{
    assert(('0' as u32 + k) as char as u32 == '0' as u32 + k);
}

/// Decimal writing and reading agree, and the writing is nothing but digits.
pub proof fn lemma_decimal(n: nat)
    ensures
        all_digits(decimal(n)),
        digits_value(decimal(n)) == n,
        decimal(n).len() >= 1,
    decreases n,
{
    lemma_digit_char(n % 10);
    if n < 10 {
        assert(decimal(n).drop_last() =~= Seq::empty());
        assert(digits_value(decimal(n).drop_last()) == 0);
        assert(decimal(n).last() == digit_char(n));
    } else {
        lemma_decimal(n / 10);
        assert(decimal(n).drop_last() =~= decimal(n / 10));
        assert(decimal(n).last() == digit_char(n % 10));
        assert(digits_value(decimal(n)) == digits_value(decimal(n / 10)) * 10 + digit_value(
            digit_char(n % 10),
        ));
        assert forall|i: int| 0 <= i < decimal(n).len() implies '0' <= #[trigger] decimal(n)[i]
            && decimal(n)[i] <= '9' by {
            if i < decimal(n / 10).len() {
                assert(decimal(n)[i] == decimal(n / 10)[i]);
            }
        }
    }
}


/// Two-digit writing reads back as the number: nothing but digits, at
/// least two of them, exactly two below a hundred.
pub proof fn lemma_two_digits(n: nat)
    ensures
        all_digits(two_digits(n)),
        digits_value(two_digits(n)) == n,
        two_digits(n).len() >= 2,
        n < 100 ==> two_digits(n).len() == 2,
{
    lemma_decimal(n);
    if n < 10 {
        lemma_digit_char(n);
        let t = two_digits(n);
        assert(t.drop_last() =~= seq!['0']);
        assert(seq!['0'].drop_last() =~= Seq::<char>::empty());
        assert(digits_value(Seq::<char>::empty()) == 0);
        assert(seq!['0'].last() == '0');
        assert(digit_value('0') == 0);
        assert(digits_value(seq!['0']) == digits_value(Seq::<char>::empty()) * 10 + digit_value('0'));
        assert(digits_value(seq!['0']) == 0);
        assert(t.last() == digit_char(n));
    } else {
        lemma_decimal(n / 10);
        assert(decimal(n).drop_last() =~= decimal(n / 10));
        if n < 100 {
            assert(decimal(n / 10).len() == 1);
        }
    }
}

/// Limiting to a smaller bound is limiting the larger result: reading the
/// same number under `max1 <= max2` gives the reading under `max2`, cut
/// down to `max1`; the reading never exceeds its bound, and a negative
/// number reads as 0.
pub proof fn lemma_clamped_limit(t: Seq<char>, max1: nat, max2: nat)
    requires
        max1 <= max2,
    ensures
        clamped_integer(t, max1) <= max1,
        clamped_integer(t, max1) == if clamped_integer(t, max2) < max1 {
            clamped_integer(t, max2)
        } else {
            max1
        },
        is_negative(t) ==> clamped_integer(t, max1) == 0,
{
}

/// `skip_digits` stops at the first non-digit after a run of digits.
pub proof fn lemma_skip_digits_run(s: Seq<char>, i: int, k: int)
    requires
        0 <= i <= k <= s.len(),
        forall|j: int| i <= j < k ==> '0' <= #[trigger] s[j] && s[j] <= '9',
        k < s.len() ==> !('0' <= s[k] && s[k] <= '9'),
    ensures
        skip_digits(s, i) == k,
    decreases k - i,
{
    if i < k {
        lemma_skip_digits_run(s, i + 1, k);
    }
}

/// A blank and then a number written in decimal read as that number's text,
/// when what follows cannot continue a number.
pub proof fn lemma_value_decimal(t: Seq<char>, j: int, n: nat, d: int)
    requires
        0 <= j,
        j + 1 + decimal(n).len() < t.len(),
        is_ws(t[j]),
        t.subrange(j + 1, j + 1 + decimal(n).len()) == decimal(n),
        !('0' <= t[j + 1 + decimal(n).len()] && t[j + 1 + decimal(n).len()] <= '9'),
        t[j + 1 + decimal(n).len()] != '.',
        t[j + 1 + decimal(n).len()] != 'e',
        t[j + 1 + decimal(n).len()] != 'E',
    ensures
        value_at(t, j, d) == Some((JsonValue::Number(decimal(n)), j + 1 + decimal(n).len())),
{
    let dn = decimal(n);
    let e = j + 1 + dn.len();
    lemma_decimal(n);
    assert forall|k: int| j + 1 <= k < e implies '0' <= #[trigger] t[k] && t[k] <= '9' by {
        assert(t[k] == t.subrange(j + 1, e)[k - (j + 1)]);
    }
    assert(t[j + 1] == dn[0]);
    assert(skip_ws(t, j + 1) == j + 1);
    lemma_skip_digits_run(t, j + 1, e);
    assert(number_is_valid(t, j + 1));
    assert(number_at(t, j + 1) == Some((JsonValue::Number(dn), e)));
}

/// The text of a number written in decimal reads back as that number.
pub proof fn lemma_clamped_decimal(n: nat, max: nat)
    requires
        n <= max,
    ensures
        clamped_integer(decimal(n), max) == n,
{
    let t = decimal(n);
    lemma_decimal(n);
    assert(t[0] != '-');
    lemma_skip_digits_run(t, 0, t.len() as int);
    assert(int_digits(t) =~= t);
    assert(frac_digits(t) =~= Seq::empty());
    assert(exp_digits(t) =~= Seq::empty());
    assert(digits_value(Seq::<char>::empty()) == 0);
    assert(scale(t) == 0);
    assert(t + Seq::<char>::empty() =~= t);
    assert(pow10(0) == 1);
    assert(n * 1 == n);
}

/// `m` scaled by `10^s`, rounded toward zero.
pub open spec fn scaled_floor(m: nat, s: int) -> nat {
    if s >= 0 {
        m * pow10(s as nat)
    } else {
        m / pow10((-s) as nat)
    }
}

pub open spec fn min_nat(a: nat, b: nat) -> nat {
    if a < b {
        a
    } else {
        b
    }
}

/// Past a point, a larger power of ten changes nothing once the result is limited.
proof fn lemma_scale_saturates(m: nat, mlen: nat, s: int, sc: int, capm: nat)
    requires
        m < pow10(mlen),
        1 <= capm <= 0x2_0000_0000,
        (s == sc) || (sc == 11 && s > 11) || (sc <= -(mlen as int) && s <= -(mlen as int)),
    ensures
        min_nat(scaled_floor(m, s), capm) == min_nat(scaled_floor(m, sc), capm),
{
    if s != sc {
        if sc == 11 {
            assert(pow10(11) == 100000000000nat) by {
                reveal_with_fuel(pow10, 12);
            }
            lemma_pow10_monotone(11, s as nat);
            if m > 0 {
                assert(m * pow10(11) >= pow10(11)) by (nonlinear_arith)
                    requires
                        m >= 1,
                ;
                assert(m * pow10(s as nat) >= pow10(s as nat)) by (nonlinear_arith)
                    requires
                        m >= 1,
                ;
            } else {
                assert(m * pow10(11) == 0);
                assert(m * pow10(s as nat) == 0);
            }
        } else {
            if mlen == 0 {
                assert(pow10(0) == 1);
                assert(m == 0);
                assert(m * pow10(0) == 0);
            }
            lemma_pow10_monotone(mlen, (-s) as nat);
            lemma_pow10_monotone(mlen, (-sc) as nat);
            lemma_pow10_positive(mlen);
            vstd::arithmetic::div_mod::lemma_fundamental_div_mod_converse(
                m as int,
                pow10((-sc) as nat) as int,
                0,
                m as int,
            );
            vstd::arithmetic::div_mod::lemma_fundamental_div_mod_converse(
                m as int,
                pow10((-s) as nat) as int,
                0,
                m as int,
            );
        }
    }
}

/// The number that the digits `d` spell, scaled by `10^sc` and rounded toward
/// zero, or `capm` if that is larger.
fn scaled_capped(d: &Vec<char>, sc: i128, capm: u128) -> (r: u128)
    requires
        all_digits(d@),
        1 <= capm <= 0x2_0000_0000,
        -0x1_0000_0000_0000_0000_0000 <= sc <= 11,
    ensures
        r == min_nat(scaled_floor(digits_value(d@), sc as int), capm as nat),
{
    let ghost m = digits_value(d@);
    assert(d@.subrange(0, d@.len() as int) =~= d@);
    if sc >= 0 {
        let mut acc = capped_digits_value(d, 0, d.len(), capm);
        let mut j: i128 = 0;
        assert(pow10(0) == 1);
        assert(m * pow10(0) == m);
        assert(digits_value(d@.subrange(0, d@.len() as int)) == m);
        while j < sc
            invariant
                0 <= j <= sc <= 11,
                1 <= capm <= 0x2_0000_0000,
                acc == min_nat(m * pow10(j as nat), capm as nat),
            decreases sc - j,
        {
            let ghost pj = pow10(j as nat);
            assert(pow10((j + 1) as nat) == 10 * pj);
            assert(m * (10 * pj) == (m * pj) * 10) by (nonlinear_arith);
            acc = if acc * 10 < capm {
                acc * 10
            } else {
                capm
            };
            j = j + 1;
        }
        acc
    } else {
        let kk = (0 - sc) as u128;
        proof {
            lemma_digits_value_div(d@, kk as nat);
        }
        if kk >= d.len() as u128 {
            0
        } else {
            let keep = d.len() - kk as usize;
            assert(d@.subrange(0, keep as int) =~= d@.take(d@.len() - kk));
            assert(all_digits(d@.subrange(0, keep as int))) by {
                assert forall|i: int| 0 <= i < keep implies '0' <= #[trigger] d@.subrange(
                    0,
                    keep as int,
                )[i] && d@.subrange(0, keep as int)[i] <= '9' by {
                    assert(d@.subrange(0, keep as int)[i] == d@[i]);
                }
            }
            capped_digits_value(d, 0, keep, capm)
        }
    }
}

/// Where the parts of the number text `c` start and end: after the sign,
/// after the integer digits, after the fraction, where the exponent digits
/// start and where they end.
fn number_layout(c: &Vec<char>) -> (r: (usize, usize, usize, usize, usize))
    ensures
        r.0 == num_int_start(c@, 0),
        r.1 == num_int_end(c@, 0),
        r.2 == num_frac_end(c@, 0),
        num_has_exp(c@, 0) ==> r.3 == num_exp_digits_start(c@, 0) && r.4 == number_end(c@, 0),
        r.0 <= r.1 <= r.2 <= c@.len(),
        num_has_exp(c@, 0) ==> r.2 < r.3 <= r.4 <= c@.len(),
{
    let n = c.len();
    let a: usize = if n > 0 && c[0] == '-' {
        1
    } else {
        0
    };
    let b = digits_end(c, a);
    let has_dot = b < n && c[b] == '.';
    let fe = if has_dot {
        digits_end(c, b + 1)
    } else {
        b
    };
    let has_exp = fe < n && (c[fe] == 'e' || c[fe] == 'E');
    if has_exp {
        let ds = if fe + 1 < n && (c[fe + 1] == '+' || c[fe + 1] == '-') {
            fe + 2
        } else {
            fe + 1
        };
        let ee = digits_end(c, ds);
        (a, b, fe, ds, ee)
    } else {
        (a, b, fe, fe, fe)
    }
}

/// The characters `c[a..b]` followed by `c[f..g]`.
fn concat_ranges(c: &Vec<char>, a: usize, b: usize, f: usize, g: usize) -> (d: Vec<char>)
    requires
        a <= b <= c@.len(),
        f <= g <= c@.len(),
    ensures
        d@ == c@.subrange(a as int, b as int) + c@.subrange(f as int, g as int),
{
    let mut d: Vec<char> = Vec::new();
    let mut k = a;
    while k < b
        invariant
            a <= k <= b <= c@.len(),
            d@ == c@.subrange(a as int, k as int),
        decreases b - k,
    {
        d.push(c[k]);
        assert(c@.subrange(a as int, k + 1) =~= c@.subrange(a as int, k as int).push(c@[k as int]));
        k = k + 1;
    }
    let mut k = f;
    while k < g
        invariant
            f <= k <= g <= c@.len(),
            a <= b <= c@.len(),
            d@ == c@.subrange(a as int, b as int) + c@.subrange(f as int, k as int),
        decreases g - k,
    {
        d.push(c[k]);
        assert(c@.subrange(f as int, k + 1) =~= c@.subrange(f as int, k as int).push(c@[k as int]));
        k = k + 1;
    }
    d
}

/// The number that the text `t` spells, read as the double nearest to it,
/// limited to `0..=max` and rounded toward zero (a negative number gives 0).
pub fn integer_of_number(t: &str, max: u32) -> (r: u32)
    ensures
        r == clamped_integer(t@, max as nat),
{
    let c = chars_of(t);
    let ghost s = t@;
    let (a, b, fe, ds, ee) = number_layout(&c);
    if a == 1 {
        return 0;
    }
    let has_dot = b < c.len() && c[b] == '.';
    let has_exp = fe < c.len() && (c[fe] == 'e' || c[fe] == 'E');
    assert(has_dot == num_has_dot(s, 0));
    assert(has_exp == num_has_exp(s, 0));
    proof {
        lemma_skip_digits(s, a as int);
        if has_dot {
            lemma_skip_digits(s, b + 1);
        }
        if has_exp {
            lemma_skip_digits(s, ds as int);
        }
    }
    let frac_start = if has_dot {
        b + 1
    } else {
        fe
    };
    let d = concat_ranges(&c, a, b, frac_start, fe);
    let ghost ints = int_digits(s);
    let ghost fracs = frac_digits(s);
    let ghost mant = ints + fracs;
    assert(ints =~= c@.subrange(a as int, b as int));
    assert(fracs =~= c@.subrange(frac_start as int, fe as int));
    assert(d@ =~= mant);
    assert(all_digits(mant)) by {
        assert forall|i: int| 0 <= i < mant.len() implies '0' <= #[trigger] mant[i] && mant[i]
            <= '9' by {
            if i < ints.len() {
                assert(mant[i] == s[a + i]);
            } else {
                assert(mant[i] == s[frac_start + i - ints.len()]);
            }
        }
    }
    let int_len = b - a;
    let frac_len = fe - frac_start;
    let exp_neg = has_exp && ds - fe == 2 && c[fe + 1] == '-';
    assert(exp_neg == exp_is_negative(s));
    let cap_e: u128 = if exp_neg {
        int_len as u128 + 1
    } else {
        frac_len as u128 + 11
    };
    let e = if has_exp {
        assert(exp_digits(s) =~= c@.subrange(ds as int, ee as int));
        capped_digits_value(&c, ds, ee, cap_e)
    } else {
        assert(exp_digits(s) =~= Seq::empty());
        0
    };
    let sc: i128 = if exp_neg {
        0 - e as i128
    } else {
        e as i128
    } - frac_len as i128;
    let capm: u128 = max as u128 + 1;
    let v = scaled_capped(&d, sc, capm);
    proof {
        lemma_digits_value_bound(mant);
        lemma_scale_saturates(digits_value(mant), mant.len(), scale(s), sc as int, capm as nat);
    }
    if v >= max as u128 {
        return max;
    }
    let n = v as u64;
    let saturated = exp_neg && e == cap_e;
    proof {
        let big_e = digits_value(exp_digits(s)) as int;
        if has_exp {
            assert(e as int == if big_e < cap_e { big_e } else { cap_e as int });
        }
        assert(mant.len() == int_len + frac_len);
    }
    finish_rounding(&d, n, sc, saturated, Ghost(s))
}

/// The rest of `integer_of_number` once the integer part `n` of the number
/// `s` is known to be below the limit: whether its nearest double is `n + 1`.
fn finish_rounding(d: &Vec<char>, n: u64, sc: i128, saturated: bool, Ghost(s): Ghost<Seq<char>>) -> (r: u32)
    requires
        all_digits(d@),
        d@ == int_digits(s) + frac_digits(s),
        n == magnitude_floor(s),
        n < u32::MAX,
        sc >= 0 ==> scale(s) >= 0,
        saturated ==> scale(s) <= -(d@.len() + 1),
        !saturated && sc < 0 ==> scale(s) == sc && -sc <= d@.len(),
    ensures
        r == if rounds_up_to(s, (n + 1) as nat) {
            n + 1
        } else {
            n as int
        },
{
    let mut up = false;
    if sc < 0 {
        if saturated {
            let j = half_gap_exponent(n + 1);
            proof {
                lemma_digits_value_bound(d@);
                lemma_small_fraction(digits_value(d@), d@.len(), (-scale(s)) as nat, j as nat);
            }
        } else {
            assert(sc as int >= -(d@.len() as int));
            let dl = d.len();
            assert(dl == d@.len());
            let places: i128 = 0 - sc;
            up = fraction_rounds_up(d, places as usize, n + 1);
        }
    }
    if up {
        (n + 1) as u32
    } else {
        n as u32
    }
}

/// A fraction with a zero in its first place is below `1 - 2^-j`.
proof fn lemma_small_fraction(dv: nat, len: nat, d: nat, j: nat)
    requires
        dv < pow10(len),
        len < d,
        j >= 1,
    ensures
        !((dv % pow10(d)) * pow2(j) >= (pow2(j) - 1) * pow10(d)),
{
    lemma_pow10_monotone(len, (d - 1) as nat);
    lemma_pow10_positive((d - 1) as nat);
    assert(pow10(d) == 10 * pow10((d - 1) as nat));
    vstd::arithmetic::div_mod::lemma_fundamental_div_mod_converse(dv as int, pow10(d) as int, 0, dv as int);
    lemma_pow2_positive(j);
    assert(pow2(j) == 2 * pow2((j - 1) as nat));
    lemma_pow2_positive((j - 1) as nat);
    let a = pow2(j) as int;
    let p = pow10((d - 1) as nat) as int;
    let x = dv as int;
    assert(x * a < (a - 1) * (10 * p)) by (nonlinear_arith)
        requires
            0 <= x < p,
            a >= 2,
    ;
}

} // verus!

verus! {

pub proof fn lemma_pow2_positive(k: nat)
    ensures
        pow2(k) >= 1,
    decreases k,
{
    if k > 0 {
        lemma_pow2_positive((k - 1) as nat);
    }
}

proof fn lemma_pow2_monotone(a: nat, b: nat)
    requires
        a <= b,
    ensures
        pow2(a) <= pow2(b),
    decreases b,
{
    if a < b {
        lemma_pow2_monotone(a, (b - 1) as nat);
        lemma_pow2_positive((b - 1) as nat);
    }
}

proof fn lemma_pow5_positive(k: nat)
    ensures
        pow5(k) >= 1,
    decreases k,
{
    if k > 0 {
        lemma_pow5_positive((k - 1) as nat);
    }
}

proof fn lemma_pow5_monotone(a: nat, b: nat)
    requires
        a <= b,
    ensures
        pow5(a) <= pow5(b),
    decreases b,
{
    if a < b {
        lemma_pow5_monotone(a, (b - 1) as nat);
        lemma_pow5_positive((b - 1) as nat);
    }
}

/// Ten to a power is two and five to that power.
proof fn lemma_pow10_split(k: nat)
    ensures
        pow10(k) == pow2(k) * pow5(k),
    decreases k,
{
    if k > 0 {
        lemma_pow10_split((k - 1) as nat);
        let a = pow2((k - 1) as nat);
        let b = pow5((k - 1) as nat);
        assert(pow2(k) == 2 * a);
        assert(pow5(k) == 5 * b);
        assert(pow10(k) == 10 * pow10((k - 1) as nat));
        assert((2 * a) * (5 * b) == 10 * (a * b)) by (nonlinear_arith);
    } else {
        assert(pow2(0) == 1);
        assert(pow5(0) == 1);
        assert(pow10(0) == 1);
    }
}

/// `10^(a + b) == 10^a * 10^b`.
proof fn lemma_pow10_add(a: nat, b: nat)
    ensures
        pow10(a + b) == pow10(a) * pow10(b),
    decreases b,
{
    if b == 0 {
        assert(pow10(a) * 1 == pow10(a));
    } else {
        lemma_pow10_add(a, (b - 1) as nat);
        let x = pow10(a);
        let y = pow10((b - 1) as nat);
        assert(x * (10 * y) == 10 * (x * y)) by (nonlinear_arith);
        assert((a + b - 1) as nat == a + (b - 1) as nat);
    }
}

/// A power of two up to `2^32` has an exponent up to 32.
proof fn lemma_pow2_at_most_32(e: nat)
    requires
        pow2(e) <= 0x1_0000_0000,
    ensures
        e <= 32,
{
    if e > 32 {
        assert(pow2(33) == 0x2_0000_0000nat) by {
            reveal_with_fuel(pow2, 34);
        }
        lemma_pow2_monotone(33, e);
    }
}

/// The prefix of a digit string spells at most what the whole string spells.
proof fn lemma_digits_value_prefix(d: Seq<char>, k: int)
    requires
        0 <= k <= d.len(),
    ensures
        digits_value(d.take(k)) <= digits_value(d),
{
    lemma_digits_value_split(d, k);
    lemma_pow10_positive((d.len() - k) as nat);
    let a = digits_value(d.take(k));
    let p = pow10((d.len() - k) as nat);
    assert(a <= a * p) by (nonlinear_arith)
        requires
            p >= 1,
    ;
}

/// The number the last `n` digits of `d` spell is what `d` spells modulo `10^n`.
proof fn lemma_digits_value_suffix(d: Seq<char>, n: nat)
    requires
        all_digits(d),
        n <= d.len(),
    ensures
        digits_value(d.skip(d.len() - n)) == digits_value(d) % pow10(n),
{
    let k = d.len() - n;
    lemma_digits_value_split(d, k);
    assert(all_digits(d.skip(k))) by {
        assert forall|i: int| 0 <= i < d.skip(k).len() implies '0' <= #[trigger] d.skip(k)[i]
            && d.skip(k)[i] <= '9' by {
            assert(d.skip(k)[i] == d[i + k]);
        }
    }
    lemma_digits_value_bound(d.skip(k));
    assert(d.skip(k).len() == n);
    vstd::arithmetic::div_mod::lemma_fundamental_div_mod_converse(
        digits_value(d) as int,
        pow10(n) as int,
        digits_value(d.take(k)) as int,
        digits_value(d.skip(k)) as int,
    );
}

/// Zeros after a digit string multiply what it spells by ten each.
proof fn lemma_digits_value_zeros(d: Seq<char>, k: nat)
    ensures
        digits_value(d + Seq::new(k, |i: int| '0')) == digits_value(d) * pow10(k),
    decreases k,
{
    let z = Seq::new(k, |i: int| '0');
    if k == 0 {
        assert(d + z =~= d);
        assert(digits_value(d) * 1 == digits_value(d));
    } else {
        let z1 = Seq::new((k - 1) as nat, |i: int| '0');
        lemma_digits_value_zeros(d, (k - 1) as nat);
        assert((d + z).drop_last() =~= d + z1);
        assert((d + z).last() == '0');
        let a = digits_value(d);
        let p = pow10((k - 1) as nat);
        assert((a * p) * 10 == a * (10 * p)) by (nonlinear_arith);
    }
}

/// The digits `9 - x` of the digits `x` of `d`.
pub open spec fn nines_complement(d: Seq<char>) -> Seq<char> {
    Seq::new(d.len(), |i: int| digit_char((9 - digit_value(d[i])) as nat))
}

/// A digit string and its nines' complement add up to `10^len - 1`.
proof fn lemma_nines_complement(d: Seq<char>)
    requires
        all_digits(d),
    ensures
        all_digits(nines_complement(d)),
        digits_value(nines_complement(d)) + digits_value(d) + 1 == pow10(d.len()),
    decreases d.len(),
{
    let c = nines_complement(d);
    assert forall|i: int| 0 <= i < c.len() implies '0' <= #[trigger] c[i] && c[i] <= '9' by {
        assert('0' <= d[i] <= '9');
        lemma_digit_char((9 - digit_value(d[i])) as nat);
    }
    if d.len() > 0 {
        let e = d.drop_last();
        assert(all_digits(e)) by {
            assert forall|i: int| 0 <= i < e.len() implies '0' <= #[trigger] e[i] && e[i] <= '9' by {
                assert(e[i] == d[i]);
            }
        }
        lemma_nines_complement(e);
        assert(c.drop_last() =~= nines_complement(e));
        assert('0' <= d.last() <= '9');
        lemma_digit_char((9 - digit_value(d.last())) as nat);
        assert(digit_value(c.last()) == 9 - digit_value(d.last()));
    }
}

/// The first `j` places of the fraction spelled by the digits `f` (padded
/// with zeros).
pub open spec fn fraction_window(f: Seq<char>, j: nat) -> Seq<char> {
    Seq::new(j, |i: int| if i < f.len() { f[i] } else { '0' })
}

/// The first `j` places of the fraction `F / 10^d` (with `F` spelled by the
/// `d` digits `f`) spell `floor(F * 10^j / 10^d)`, and the fraction is at
/// least `1 - 2^-j` exactly when they spell at least `(2^j - 1) * 5^j`.
proof fn lemma_fraction_window(f: Seq<char>, j: nat)
    requires
        all_digits(f),
        j >= 1,
    ensures
        all_digits(fraction_window(f, j)),
        (digits_value(f) * pow2(j) >= (pow2(j) - 1) * pow10(f.len())) == (digits_value(
            fraction_window(f, j),
        ) >= (pow2(j) - 1) * pow5(j)),
{
    let w = fraction_window(f, j);
    let d = f.len();
    let ff = digits_value(f) as int;
    let a = pow2(j) as int;
    let b = pow5(j) as int;
    lemma_pow10_split(j);
    lemma_pow2_positive(j);
    lemma_pow5_positive(j);
    assert(all_digits(w));
    if j <= d {
        assert(w =~= f.take(j as int));
        lemma_digits_value_div(f, (d - j) as nat);
        assert(f.take(d - (d - j)) =~= f.take(j as int));
        let p = pow10((d - j) as nat) as int;
        lemma_pow10_positive((d - j) as nat);
        assert(pow10(d) == pow10(j) * pow10((d - j) as nat)) by {
            lemma_pow10_add(j, (d - j) as nat);
        }
        let q = ff / p;
        let r = ff % p;
        assert(ff == q * p + r && 0 <= r < p) by {
            vstd::arithmetic::div_mod::lemma_fundamental_div_mod(ff, p);
        }
        assert((ff * a >= (a - 1) * (a * b * p)) == (q >= (a - 1) * b)) by (nonlinear_arith)
            requires
                ff == q * p + r,
                0 <= r < p,
                a >= 1,
                b >= 1,
                p >= 1,
        {
            if q >= (a - 1) * b {
                assert(ff >= (a - 1) * b * p);
                assert(ff * a >= (a - 1) * b * p * a);
            }
            if ff * a >= (a - 1) * (a * b * p) {
                assert(ff >= (a - 1) * b * p);
                if q < (a - 1) * b {
                    assert(q + 1 <= (a - 1) * b);
                    assert((q + 1) * p <= (a - 1) * b * p);
                    assert(ff < (q + 1) * p);
                }
            }
        }
        assert(pow10(d) as int == a * b * p);
    } else {
        let k = (j - d) as nat;
        assert(w =~= f + Seq::new(k, |i: int| '0'));
        lemma_digits_value_zeros(f, k);
        let p = pow10(k) as int;
        lemma_pow10_positive(k);
        assert(pow10(j) == pow10(d) * pow10(k)) by {
            lemma_pow10_add(d, k);
        }
        let t = pow10(d) as int;
        lemma_pow10_positive(d);
        assert((ff * a >= (a - 1) * t) == (ff * p >= (a - 1) * b)) by (nonlinear_arith)
            requires
                t * p == a * b,
                a >= 1,
                b >= 1,
                p >= 1,
                t >= 1,
        {
            if ff * a >= (a - 1) * t {
                assert(ff * a * p >= (a - 1) * t * p);
                assert(ff * p * a >= (a - 1) * b * a);
            }
            if ff * p >= (a - 1) * b {
                assert(ff * p * a >= (a - 1) * b * a);
                assert(ff * a * p >= (a - 1) * t * p);
            }
        }
    }
}

/// `half_gap_exp(m)`, for `1 <= m <= 2^32`.
fn half_gap_exponent(m: u64) -> (r: u64)
    requires
        1 <= m <= 0x1_0000_0000,
    ensures
        r == half_gap_exp(m as nat),
        21 <= r <= 54,
{
    let mut q = m;
    let mut e: u64 = 0;
    let mut p: u64 = 1;
    while q >= 2
        invariant
            1 <= q,
            m <= 0x1_0000_0000,
            log2_floor(m as nat) == e + log2_floor(q as nat),
            p == pow2(e as nat),
            p * q <= m,
            e <= 64,
        decreases q,
    {
        proof {
            lemma_pow2_positive(e as nat);
        }
        assert(p * 2 <= p * q && p * 2 * (q / 2) <= p * q) by (nonlinear_arith)
            requires
                p >= 1,
                q >= 2,
        ;
        proof {
            assert(pow2((e + 1) as nat) == p * 2);
            lemma_pow2_at_most_32((e + 1) as nat);
        }
        q = q / 2;
        e = e + 1;
        p = p * 2;
    }
    proof {
        lemma_pow2_positive(e as nat);
        lemma_pow2_at_most_32(e as nat);
    }
    if p == m {
        54 - e
    } else {
        53 - e
    }
}

/// Five to the power `k`, for `k <= 54`.
fn pow5_exec(k: u64) -> (r: u128)
    requires
        k <= 54,
    ensures
        r == pow5(k as nat),
        r <= 55511151231257827021181583404541015625,
{
    proof {
        assert(pow5(54) == 55511151231257827021181583404541015625nat) by {
            reveal_with_fuel(pow5, 55);
        }
    }
    let mut r: u128 = 1;
    let mut i: u64 = 0;
    while i < k
        invariant
            i <= k <= 54,
            r == pow5(i as nat),
            pow5(54) == 55511151231257827021181583404541015625nat,
        decreases k - i,
    {
        proof {
            lemma_pow5_monotone((i + 1) as nat, 54);
        }
        r = r * 5;
        i = i + 1;
    }
    proof {
        lemma_pow5_monotone(k as nat, 54);
    }
    r
}

/// Whether the digits `c` spell a number below `bound`.
fn digits_below(c: &Vec<char>, bound: u128) -> (r: bool)
    requires
        all_digits(c@),
        bound <= 0x4000_0000_0000_0000_0000_0000_0000_0000,
    ensures
        r == (digits_value(c@) < bound),
{
    if bound == 0 {
        return false;
    }
    let mut acc: u128 = 0;
    let mut k: usize = 0;
    assert(c@.take(0) =~= Seq::<char>::empty());
    while k < c.len()
        invariant
            all_digits(c@),
            bound <= 0x4000_0000_0000_0000_0000_0000_0000_0000,
            k <= c@.len(),
            acc == digits_value(c@.take(k as int)),
            acc < bound,
        decreases c@.len() - k,
    {
        assert(c@.take(k + 1).drop_last() =~= c@.take(k as int));
        assert(c@.take(k + 1).last() == c@[k as int]);
        let x = (c[k] as u32 - '0' as u32) as u128;
        proof {
            lemma_digits_value_prefix(c@, k + 1);
        }
        if acc >= (bound + 9) / 10 {
            assert(acc * 10 + x >= bound);
            return false;
        }
        let next = acc * 10 + x;
        if next >= bound {
            return false;
        }
        acc = next;
        k = k + 1;
    }
    assert(c@.take(c@.len() as int) =~= c@);
    true
}

/// Whether the fraction spelled by the last `d` digits of `dg` is at least
/// `1 - 2^-half_gap_exp(m)`.
fn fraction_rounds_up(dg: &Vec<char>, d: usize, m: u64) -> (r: bool)
    requires
        all_digits(dg@),
        1 <= d <= dg@.len(),
        1 <= m <= 0x1_0000_0000,
    ensures
        r == ((digits_value(dg@) % pow10(d as nat)) * pow2(half_gap_exp(m as nat)) >= (pow2(
            half_gap_exp(m as nat),
        ) - 1) * pow10(d as nat)),
{
    let j = half_gap_exponent(m);
    let n = dg.len();
    let ghost f = dg@.skip(n - d);
    let ghost w = fraction_window(f, j as nat);
    proof {
        assert(all_digits(f)) by {
            assert forall|i: int| 0 <= i < f.len() implies '0' <= #[trigger] f[i] && f[i] <= '9' by {
                assert(f[i] == dg@[i + n - d]);
            }
        }
        lemma_digits_value_suffix(dg@, d as nat);
        lemma_fraction_window(f, j as nat);
        lemma_nines_complement(w);
    }
    let mut comp: Vec<char> = Vec::new();
    let mut i: u64 = 0;
    while i < j
        invariant
            i <= j <= 54,
            n == dg@.len(),
            1 <= d <= n,
            f == dg@.skip(n - d),
            w == fraction_window(f, j as nat),
            all_digits(w),
            comp@ == nines_complement(w).take(i as int),
        decreases j - i,
    {
        let digit = if (i as usize) < d {
            dg[n - d + i as usize]
        } else {
            '0'
        };
        assert(digit == w[i as int]);
        assert('0' <= w[i as int] <= '9');
        let v = (digit as u32 - '0' as u32) as u64;
        comp.push(digit_to_char(9 - v));
        assert(comp@ =~= nines_complement(w).take(i + 1));
        i = i + 1;
    }
    assert(comp@ =~= nines_complement(w));
    let bound = pow5_exec(j);
    proof {
        lemma_pow10_split(j as nat);
        lemma_pow2_positive(j as nat);
        let a = pow2(j as nat) as int;
        let b = pow5(j as nat) as int;
        assert(a * b - 1 - (a - 1) * b == b - 1) by (nonlinear_arith);
    }
    digits_below(&comp, bound)
}

/// `2^log2_floor(m) <= m < 2^(log2_floor(m) + 1)`.
proof fn lemma_log2_floor(m: nat)
    requires
        m >= 1,
    ensures
        pow2(log2_floor(m)) <= m < pow2(log2_floor(m) + 1),
    decreases m,
{
    if m >= 2 {
        lemma_log2_floor(m / 2);
    }
}

} // verus!
