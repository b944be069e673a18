//! Decimal-digit strings: the mathematical reading of a digit sequence, the
//! canonical rendering of an unsigned integer, and the lemmas tying the two
//! together.

use vstd::prelude::*;

verus! {

/// The character for the decimal digit `d`.
pub open spec fn digit_char(d: nat) -> char {
    if d == 0 {
        '0'
    } else if d == 1 {
        '1'
    } else if d == 2 {
        '2'
    } else if d == 3 {
        '3'
    } else if d == 4 {
        '4'
    } else if d == 5 {
        '5'
    } else if d == 6 {
        '6'
    } else if d == 7 {
        '7'
    } else if d == 8 {
        '8'
    } else {
        '9'
    }
}

/// Whether `c` is a decimal digit.
pub open spec fn is_digit(c: char) -> bool {
    '0' as u32 <= c as u32 && c as u32 <= '9' as u32
}

/// The numeric value of the digit character `c`.
pub open spec fn char_digit(c: char) -> nat
    recommends
        is_digit(c),
{
    (c as u32 - '0' as u32) as nat
}

/// Whether every character of `s` is a decimal digit.
pub open spec fn is_digits(s: Seq<char>) -> bool {
    forall|i: int| 0 <= i < s.len() ==> is_digit(#[trigger] s[i])
}

/// The canonical decimal rendering of `n`: no sign, no leading zeros
/// beyond `"0"` itself.
pub open spec fn digits_of(n: nat) -> Seq<char>
    decreases n,
{
    if n < 10 {
        seq![digit_char(n)]
    } else {
        digits_of(n / 10).push(digit_char(n % 10))
    }
}

/// The number named by the digit string `s` (most significant digit first);
/// the empty string names zero.
pub open spec fn digits_val(s: Seq<char>) -> nat
    decreases s.len(),
{
    if s.len() == 0 {
        0
    } else {
        digits_val(s.drop_last()) * 10 + char_digit(s.last())
    }
}

/// Ten to the power `n`.
pub open spec fn pow10(n: nat) -> nat
    decreases n,
{
    if n == 0 {
        1
    } else {
        10 * pow10((n - 1) as nat)
    }
}

pub proof fn lemma_pow10_pos(n: nat)
    ensures
        pow10(n) >= 1,
    decreases n,
{
    if n > 0 {
        lemma_pow10_pos((n - 1) as nat);
    }
}

/// Reading a longer digit string: the prefix's value is scaled by ten for
/// every digit that follows it.
pub proof fn lemma_digits_val_concat(a: Seq<char>, b: Seq<char>)
    ensures
        digits_val(a + b) == digits_val(a) * pow10(b.len()) + digits_val(b),
    decreases b.len(),
{
    if b.len() == 0 {
        assert(a + b =~= a);
        assert(digits_val(a) * 1 == digits_val(a)) by (nonlinear_arith);
    } else {
        let b0 = b.drop_last();
        lemma_digits_val_concat(a, b0);
        assert((a + b).drop_last() =~= a + b0);
        assert((a + b).last() == b.last());
        assert(digits_val(a + b) == (digits_val(a) * pow10(b0.len()) + digits_val(b0)) * 10
            + char_digit(b.last()));
        assert(digits_val(a) * pow10(b0.len()) * 10 == digits_val(a) * (10 * pow10(b0.len())))
            by (nonlinear_arith);
        assert(pow10(b.len()) == 10 * pow10(b0.len()));
    }
}

/// The index of the first `'.'` in `s`, or `s.len()` when there is none.
pub open spec fn first_dot(s: Seq<char>) -> int
    decreases s.len(),
{
    if s.len() == 0 {
        0
    } else if s[0] == '.' {
        0
    } else {
        1 + first_dot(s.skip(1))
    }
}

/// The digits before the decimal point (the whole of `s` when it has none).
pub open spec fn int_part(s: Seq<char>) -> Seq<char> {
    s.take(first_dot(s))
}

/// The digits after the decimal point, empty when `s` has none.
pub open spec fn frac_part(s: Seq<char>) -> Seq<char> {
    if first_dot(s) == s.len() {
        Seq::empty()
    } else {
        s.skip(first_dot(s) + 1)
    }
}

/// The decimal strings this crate converts to drops: digits, at most one
/// decimal point, at least one digit overall. No sign, no exponent.
pub open spec fn valid_decimal(s: Seq<char>) -> bool {
    &&& is_digits(int_part(s))
    &&& is_digits(frac_part(s))
    &&& int_part(s).len() + frac_part(s).len() > 0
}

/// The drop count named by the fraction digits `fr`: the first six of them,
/// padded with zeros to six places; further digits are cut off, which is
/// the floor of the exact product with one million.
pub open spec fn frac_drops(fr: Seq<char>) -> nat {
    if fr.len() >= 6 {
        digits_val(fr.take(6))
    } else {
        digits_val(fr) * pow10((6 - fr.len()) as nat)
    }
}

/// The exact number of drops named by the decimal string `s`: one million
/// per whole unit, plus the fraction scaled to drops and truncated.
pub open spec fn decimal_drops(s: Seq<char>) -> nat
    recommends
        valid_decimal(s),
{
    digits_val(int_part(s)) * 1000000 + frac_drops(frac_part(s))
}

pub proof fn lemma_first_dot_bounds(s: Seq<char>)
    ensures
        0 <= first_dot(s) <= s.len(),
        first_dot(s) < s.len() ==> s[first_dot(s)] == '.',
        forall|i: int| 0 <= i < first_dot(s) ==> s[i] != '.',
    decreases s.len(),
{
    if s.len() > 0 && s[0] != '.' {
        lemma_first_dot_bounds(s.skip(1));
        assert forall|i: int| 0 <= i < first_dot(s) implies s[i] != '.' by {
            if i > 0 {
                assert(s.skip(1)[i - 1] == s[i]);
            }
        }
    }
}

/// If no `'.'` stands before `k`, and `k` is the end or a `'.'`, then `k`
/// is the first dot.
pub proof fn lemma_first_dot_at(s: Seq<char>, k: int)
    requires
        0 <= k <= s.len(),
        forall|i: int| 0 <= i < k ==> s[i] != '.',
        k == s.len() || s[k] == '.',
    ensures
        first_dot(s) == k,
    decreases s.len(),
{
    if s.len() > 0 && s[0] != '.' {
        assert(k > 0);
        let t = s.skip(1);
        assert(forall|i: int| 0 <= i < k - 1 ==> t[i] != '.');
        lemma_first_dot_at(t, k - 1);
    }
}


/// A string of zero digits names zero.
pub proof fn lemma_zero_digits_val(ds: Seq<char>)
    requires
        forall|i: int| 0 <= i < ds.len() ==> ds[i] == '0',
    ensures
        digits_val(ds) == 0,
    decreases ds.len(),
{
    if ds.len() > 0 {
        assert(forall|i: int| 0 <= i < ds.drop_last().len() ==> ds.drop_last()[i] == #[trigger] ds[i]);
        lemma_zero_digits_val(ds.drop_last());
        assert(char_digit('0') == 0);
    }
}

/// Reading a digit character and rendering it again gives it back.
pub proof fn lemma_char_digit_inverse(c: char)
    requires
        is_digit(c),
    ensures
        digit_char(char_digit(c)) == c,
{
    let u: u32 = c as u32;
    assert(48 <= u <= 57);
    assert(digit_char(char_digit(c)) as u32 == u);
    vstd::utf8::char_u32_cast(c, u);
    vstd::utf8::char_u32_cast(digit_char(char_digit(c)), u);
}

/// A digit string with a nonzero leading digit names at least ten to the
/// length less one.
pub proof fn lemma_leading_value(ds: Seq<char>)
    requires
        is_digits(ds),
        ds.len() > 0,
        ds[0] != '0',
    ensures
        digits_val(ds) >= pow10((ds.len() - 1) as nat),
    decreases ds.len(),
{
    if ds.len() == 1 {
        assert(char_digit(ds[0]) >= 1) by {
            assert(is_digit(ds[0]));
            if ds[0] as u32 == 48 {
                vstd::utf8::char_u32_cast(ds[0], 48);
                vstd::utf8::char_u32_cast('0', 48);
            }
        }
    } else {
        let dl = ds.drop_last();
        assert(forall|i: int| 0 <= i < dl.len() ==> dl[i] == #[trigger] ds[i]);
        assert(is_digits(dl));
        lemma_leading_value(dl);
        assert(pow10((ds.len() - 1) as nat) == 10 * pow10((ds.len() - 2) as nat));
        assert(digits_val(dl) * 10 >= pow10((ds.len() - 2) as nat) * 10) by (nonlinear_arith)
            requires digits_val(dl) >= pow10((ds.len() - 2) as nat),
        ;
    }
}

/// Rendering the number a canonical digit string names gives that string
/// back: no leading zero unless the string is `0` itself.
pub proof fn lemma_digits_of_val(ds: Seq<char>)
    requires
        is_digits(ds),
        ds.len() > 0,
        ds[0] != '0' || ds.len() == 1,
    ensures
        digits_of(digits_val(ds)) == ds,
    decreases ds.len(),
{
    if ds.len() == 1 {
        assert(ds.drop_last().len() == 0);
        assert(digits_val(ds.drop_last()) == 0);
        assert(ds.last() == ds[0]);
        assert(digits_val(ds) == 0 * 10 + char_digit(ds[0]));
        assert(digits_val(ds) == char_digit(ds[0]));
        assert(char_digit(ds[0]) < 10);
        lemma_char_digit_inverse(ds[0]);
        assert(digits_of(digits_val(ds)) =~= seq![ds[0]]);
        assert(seq![ds[0]] =~= ds);
    } else {
        let dl = ds.drop_last();
        let d = char_digit(ds.last());
        assert(forall|i: int| 0 <= i < dl.len() ==> dl[i] == #[trigger] ds[i]);
        assert(is_digits(dl));
        lemma_leading_value(dl);
        lemma_pow10_pos((dl.len() - 1) as nat);
        let v = digits_val(ds);
        assert(v == digits_val(dl) * 10 + d);
        assert(d < 10);
        assert(digits_val(dl) >= 1);
        assert(v >= 10) by (nonlinear_arith)
            requires v == digits_val(dl) * 10 + d, digits_val(dl) >= 1, d >= 0,
        ;
        assert(v / 10 == digits_val(dl) && v % 10 == d) by (nonlinear_arith)
            requires v == digits_val(dl) * 10 + d, 0 <= d < 10,
        ;
        lemma_digits_of_val(dl);
        lemma_char_digit_inverse(ds.last());
        assert(digits_of(v) == digits_of(digits_val(dl)).push(digit_char(d)));
        assert(dl.push(ds.last()) =~= ds);
    }
}

/// The digit character for `d`, as an executable value.
pub fn digit_to_char(d: u64) -> (c: char)
    requires
        d < 10,
    ensures
        c == digit_char(d as nat),
        is_digit(c),
{
    match d {
        0 => '0',
        1 => '1',
        2 => '2',
        3 => '3',
        4 => '4',
        5 => '5',
        6 => '6',
        7 => '7',
        8 => '8',
        _ => '9',
    }
}

/// Renders `value` as its canonical decimal string.
pub fn u64_to_string(value: u64) -> (r: String)
    ensures
        r@ == digits_of(value as nat),
{
    let mut ds: Vec<char> = Vec::new();
    if value == 0 {
        ds.push('0');
        assert(ds@ =~= digits_of(0));
    } else {
        let mut m: u64 = value;
        proof {
            assert(digits_of(value as nat) =~= digits_of(value as nat) + ds@);
        }
        while m > 0
            invariant
                digits_of(value as nat) == if m == 0 {
                    ds@
                } else {
                    digits_of(m as nat) + ds@
                },
            decreases m,
        {
            let ghost prev = m as nat;
            let ghost ds_old = ds@;
            let d: u64 = m % 10;
            let c = digit_to_char(d);
            ds.insert(0, c);
            m = m / 10;
            proof {
                assert(ds@ =~= seq![c] + ds_old);
                if prev < 10 {
                    assert(m == 0);
                    assert(digits_of(prev) =~= seq![c]);
                    assert(digits_of(value as nat) =~= ds@);
                } else {
                    assert(digits_of(prev) =~= digits_of(m as nat).push(c));
                    assert(digits_of(m as nat).push(c) + ds_old =~= digits_of(m as nat) + (
                    seq![c] + ds_old));
                    assert(digits_of(value as nat) =~= digits_of(m as nat) + ds@);
                }
            }
        }
    }
    let mut out = String::new();
    let mut i: usize = 0;
    while i < ds.len()
        invariant
            i <= ds.len(),
            out@ == ds@.take(i as int),
            ds@ == digits_of(value as nat),
        decreases ds.len() - i,
    {
        out.push(ds[i]);
        proof {
            assert(ds@.take(i + 1) =~= ds@.take(i as int).push(ds@[i as int]));
        }
        i = i + 1;
    }
    proof {
        assert(ds@.take(ds@.len() as int) =~= ds@);
    }
    out
}

} // verus!
