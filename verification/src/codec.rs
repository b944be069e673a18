//! The untagged wire format: a native amount travels as a JSON string, an
//! issued amount as a flat JSON object with the three members `value`,
//! `currency` and `issuer`. This module defines both directions at the
//! specification level — `spec_encode` for the canonical text the encoder
//! emits, `spec_read` for the JSON reading the decoder accepts (members in
//! any order, whitespace between tokens, the standard string escapes) — the
//! executable encoder and decoder against them, and the round-trip theorem
//! tying the two: reading the encoding of any amount gives that amount back.

use vstd::prelude::*;
use vstd::string::StrSliceExecFns;
use vstd::string::StringExecFns;
use vstd::utf8::char_u32_cast;

use crate::amount::{Amount, AmountError, AmountV, IssuedAmount, IssuedAmountV};
use crate::text::is_scalar_code;

verus! {

// ------------------------------------------------------------------
// The canonical encoding.
// ------------------------------------------------------------------
/// The hexadecimal digit character for `d` (lower case).
pub open spec fn hex_digit_char(d: nat) -> char {
    if d == 0 {
        '0'
    } else if d == 1 {
        '1'
    } else if d == 2 {
        '2'
    } else if d == 3 {
        '3'
    } else if d == 4 {
        '4'
    } else if d == 5 {
        '5'
    } else if d == 6 {
        '6'
    } else if d == 7 {
        '7'
    } else if d == 8 {
        '8'
    } else if d == 9 {
        '9'
    } else if d == 10 {
        'a'
    } else if d == 11 {
        'b'
    } else if d == 12 {
        'c'
    } else if d == 13 {
        'd'
    } else if d == 14 {
        'e'
    } else {
        'f'
    }
}

/// How one character of string content is emitted: quote and backslash get
/// a backslash, the five controls with names get their named escapes, any
/// other control character travels as `\u00` and two hex digits, and
/// everything else stands for itself.
pub open spec fn escaped_char(c: char) -> Seq<char> {
    if c == '"' {
        seq!['\\', '"']
    } else if c == '\\' {
        seq!['\\', '\\']
    } else if c == '\u{0008}' {
        seq!['\\', 'b']
    } else if c == '\u{000C}' {
        seq!['\\', 'f']
    } else if c == '\n' {
        seq!['\\', 'n']
    } else if c == '\r' {
        seq!['\\', 'r']
    } else if c == '\t' {
        seq!['\\', 't']
    } else if (c as u32) < 0x20 {
        seq!['\\', 'u', '0', '0', hex_digit_char((c as u32 / 16) as nat), hex_digit_char(
            (c as u32 % 16) as nat,
        )]
    } else {
        seq![c]
    }
}

/// The emitted form of string content.
pub open spec fn escape(s: Seq<char>) -> Seq<char>
    decreases s.len(),
{
    if s.len() == 0 {
        Seq::empty()
    } else {
        escaped_char(s[0]) + escape(s.skip(1))
    }
}

/// The member names.
pub open spec fn key_value() -> Seq<char> {
    seq!['v', 'a', 'l', 'u', 'e']
}

pub open spec fn key_currency() -> Seq<char> {
    seq!['c', 'u', 'r', 'r', 'e', 'n', 'c', 'y']
}

pub open spec fn key_issuer() -> Seq<char> {
    seq!['i', 's', 's', 'u', 'e', 'r']
}

/// The opening of the canonical issued-amount object, up to and including
/// the quote that opens the `value` string: `{"value":"`.
pub open spec fn obj_head() -> Seq<char> {
    seq!['{', '"', 'v', 'a', 'l', 'u', 'e', '"', ':', '"']
}

/// Between the `value` string's closing quote and the `currency` content:
/// `,"currency":"`.
pub open spec fn obj_sep_currency() -> Seq<char> {
    seq![',', '"', 'c', 'u', 'r', 'r', 'e', 'n', 'c', 'y', '"', ':', '"']
}

/// Between the `currency` string's closing quote and the `issuer` content:
/// `,"issuer":"`.
pub open spec fn obj_sep_issuer() -> Seq<char> {
    seq![',', '"', 'i', 's', 's', 'u', 'e', 'r', '"', ':', '"']
}

/// The canonical wire text of an amount, as `encode` emits it: a `Drops`
/// value as a bare string literal, an `Issued` value as the compact
/// three-member object with the members in the order `value`, `currency`,
/// `issuer`.
pub open spec fn spec_encode(a: AmountV) -> Seq<char> {
    match a {
        AmountV::Drops(d) => seq!['"'] + escape(d) + seq!['"'],
        AmountV::Issued(r) => obj_head() + escape(r.value) + seq!['"'] + obj_sep_currency()
            + escape(r.currency) + seq!['"'] + obj_sep_issuer() + escape(r.issuer) + seq!['"']
            + seq!['}'],
    }
}

// ------------------------------------------------------------------
// The JSON reading the decoder accepts.
// ------------------------------------------------------------------
/// JSON whitespace.
pub open spec fn is_ws(c: char) -> bool {
    c == ' ' || c == '\t' || c == '\n' || c == '\r'
}

/// The first index at or after `i` that holds no whitespace (or the end).
pub open spec fn skip_ws(s: Seq<char>, i: int) -> int
    decreases s.len() - i,
{
    if i < 0 || i >= s.len() {
        i
    } else if is_ws(s[i]) {
        skip_ws(s, i + 1)
    } else {
        i
    }
}

/// The character a two-character escape names, if the letter is one of the
/// eight JSON defines (`\uXXXX` is handled separately).
pub open spec fn simple_unescape(e: char) -> Option<char> {
    if e == '"' {
        Some('"')
    } else if e == '\\' {
        Some('\\')
    } else if e == '/' {
        Some('/')
    } else if e == 'b' {
        Some('\u{0008}')
    } else if e == 'f' {
        Some('\u{000C}')
    } else if e == 'n' {
        Some('\n')
    } else if e == 'r' {
        Some('\r')
    } else if e == 't' {
        Some('\t')
    } else {
        None
    }
}

pub open spec fn is_hex_digit(c: char) -> bool {
    ('0' as u32 <= c as u32 && c as u32 <= '9' as u32) || ('a' as u32 <= c as u32 && c as u32
        <= 'f' as u32) || ('A' as u32 <= c as u32 && c as u32 <= 'F' as u32)
}

pub open spec fn hex_val(c: char) -> nat
    recommends
        is_hex_digit(c),
{
    if '0' as u32 <= c as u32 && c as u32 <= '9' as u32 {
        (c as u32 - '0' as u32) as nat
    } else if 'a' as u32 <= c as u32 && c as u32 <= 'f' as u32 {
        (c as u32 - 'a' as u32 + 10) as nat
    } else {
        (c as u32 - 'A' as u32 + 10) as nat
    }
}

/// Whether four hexadecimal digits stand at `i`.
pub open spec fn hex4_ok(s: Seq<char>, i: int) -> bool {
    &&& 0 <= i
    &&& i + 4 <= s.len()
    &&& is_hex_digit(s[i])
    &&& is_hex_digit(s[i + 1])
    &&& is_hex_digit(s[i + 2])
    &&& is_hex_digit(s[i + 3])
}

/// The value of the four hexadecimal digits at `i`.
pub open spec fn hex4_val(s: Seq<char>, i: int) -> nat
    recommends
        hex4_ok(s, i),
{
    4096 * hex_val(s[i]) + 256 * hex_val(s[i + 1]) + 16 * hex_val(s[i + 2]) + hex_val(s[i + 3])
}

/// The character with code point `u`.
pub open spec fn code_char(u: nat) -> char {
    (u as u32) as char
}

/// The scalar value a surrogate pair names.
pub open spec fn surrogate_code(u: nat, l: nat) -> nat
    recommends
        0xD800 <= u < 0xDC00,
        0xDC00 <= l <= 0xDFFF,
{
    (0x10000 + (u - 0xD800) * 0x400 + (l - 0xDC00)) as nat
}

/// Puts `p` in front of the content of a partial string-reading result.
pub open spec fn prepend_read(p: Seq<char>, o: Option<(Seq<char>, int)>) -> Option<
    (Seq<char>, int),
> {
    match o {
        Some((r, j)) => Some((p + r, j)),
        None => None,
    }
}

/// Reads a JSON string starting just past its opening quote: content
/// characters, the standard escapes (`\uXXXX` with surrogate pairs
/// included), and the closing quote. Yields the unescaped content and the
/// index just past the closing quote. Raw control characters, bad escapes,
/// lone surrogates and a missing closing quote all fail.
pub open spec fn read_string(s: Seq<char>, i: int) -> Option<(Seq<char>, int)>
    decreases s.len() - i,
{
    if i < 0 || i >= s.len() {
        None
    } else if s[i] == '"' {
        Some((Seq::empty(), i + 1))
    } else if s[i] == '\\' {
        if i + 1 >= s.len() {
            None
        } else if s[i + 1] == 'u' {
            if hex4_ok(s, i + 2) {
                let u = hex4_val(s, i + 2);
                if u < 0xD800 || u > 0xDFFF {
                    prepend_read(seq![code_char(u)], read_string(s, i + 6))
                } else if u < 0xDC00 {
                    if i + 12 <= s.len() && s[i + 6] == '\\' && s[i + 7] == 'u' && hex4_ok(
                        s,
                        i + 8,
                    ) {
                        let l = hex4_val(s, i + 8);
                        if 0xDC00 <= l && l <= 0xDFFF {
                            prepend_read(
                                seq![code_char(surrogate_code(u, l))],
                                read_string(s, i + 12),
                            )
                        } else {
                            None
                        }
                    } else {
                        None
                    }
                } else {
                    None
                }
            } else {
                None
            }
        } else {
            match simple_unescape(s[i + 1]) {
                Some(c) => prepend_read(seq![c], read_string(s, i + 2)),
                None => None,
            }
        }
    } else if (s[i] as u32) < 0x20 {
        None
    } else {
        prepend_read(seq![s[i]], read_string(s, i + 1))
    }
}

/// Reads one object member at `i`: optional whitespace, a string key, a
/// colon with optional whitespace around it, and a string value. Yields
/// the key, the value and the index just past the value.
pub open spec fn read_member(s: Seq<char>, i: int) -> Option<(Seq<char>, Seq<char>, int)> {
    let k0 = skip_ws(s, i);
    if k0 < s.len() && s[k0] == '"' {
        match read_string(s, k0 + 1) {
            Some((key, k1)) => {
                let k2 = skip_ws(s, k1);
                if k2 < s.len() && s[k2] == ':' {
                    let k3 = skip_ws(s, k2 + 1);
                    if k3 < s.len() && s[k3] == '"' {
                        match read_string(s, k3 + 1) {
                            Some((val, k4)) => Some((key, val, k4)),
                            None => None,
                        }
                    } else {
                        None
                    }
                } else {
                    None
                }
            },
            None => None,
        }
    } else {
        None
    }
}

/// Sorts three read members into the record, whichever order they came in.
/// Anything but a permutation of the three required names — a missing
/// member, a duplicate, an unknown name — fails.
pub open spec fn assign_members(
    k1: Seq<char>,
    v1: Seq<char>,
    k2: Seq<char>,
    v2: Seq<char>,
    k3: Seq<char>,
    v3: Seq<char>,
) -> Option<IssuedAmountV> {
    if k1 == key_value() && k2 == key_currency() && k3 == key_issuer() {
        Some(IssuedAmountV { value: v1, currency: v2, issuer: v3 })
    } else if k1 == key_value() && k2 == key_issuer() && k3 == key_currency() {
        Some(IssuedAmountV { value: v1, currency: v3, issuer: v2 })
    } else if k1 == key_currency() && k2 == key_value() && k3 == key_issuer() {
        Some(IssuedAmountV { value: v2, currency: v1, issuer: v3 })
    } else if k1 == key_currency() && k2 == key_issuer() && k3 == key_value() {
        Some(IssuedAmountV { value: v3, currency: v1, issuer: v2 })
    } else if k1 == key_issuer() && k2 == key_value() && k3 == key_currency() {
        Some(IssuedAmountV { value: v2, currency: v3, issuer: v1 })
    } else if k1 == key_issuer() && k2 == key_currency() && k3 == key_value() {
        Some(IssuedAmountV { value: v3, currency: v2, issuer: v1 })
    } else {
        None
    }
}

/// Reads an issued-amount object at `i` (which must hold the brace):
/// exactly three members, in any order, with JSON whitespace between
/// tokens. Yields the record and the index just past the closing brace.
pub open spec fn read_object(s: Seq<char>, i: int) -> Option<(IssuedAmountV, int)> {
    match read_member(s, i + 1) {
        Some((k1, v1, a)) => {
            let a1 = skip_ws(s, a);
            if a1 < s.len() && s[a1] == ',' {
                match read_member(s, a1 + 1) {
                    Some((k2, v2, b)) => {
                        let b1 = skip_ws(s, b);
                        if b1 < s.len() && s[b1] == ',' {
                            match read_member(s, b1 + 1) {
                                Some((k3, v3, c)) => {
                                    let c1 = skip_ws(s, c);
                                    if c1 < s.len() && s[c1] == '}' {
                                        match assign_members(k1, v1, k2, v2, k3, v3) {
                                            Some(rec) => Some((rec, c1 + 1)),
                                            None => None,
                                        }
                                    } else {
                                        None
                                    }
                                },
                                None => None,
                            }
                        } else {
                            None
                        }
                    },
                    None => None,
                }
            } else {
                None
            }
        },
        None => None,
    }
}

/// The JSON reading of a whole payload: optional whitespace, then either a
/// bare string (the `Drops` variant, content taken verbatim) or a
/// three-member object (the `Issued` variant), then optional whitespace to
/// the end. Every other shape — a number, an array, `null`, an object with
/// missing, extra, duplicated or non-string members — reads as nothing.
pub open spec fn spec_read(s: Seq<char>) -> Option<AmountV> {
    let i = skip_ws(s, 0);
    if i < s.len() && s[i] == '"' {
        match read_string(s, i + 1) {
            Some((v, j)) => if skip_ws(s, j) == s.len() {
                Some(AmountV::Drops(v))
            } else {
                None
            },
            None => None,
        }
    } else if i < s.len() && s[i] == '{' {
        match read_object(s, i) {
            Some((rec, j)) => if skip_ws(s, j) == s.len() {
                Some(AmountV::Issued(rec))
            } else {
                None
            },
            None => None,
        }
    } else {
        None
    }
}

// ------------------------------------------------------------------
// Lemmas.
// ------------------------------------------------------------------
/// Escaping distributes over concatenation.
pub proof fn lemma_escape_app(a: Seq<char>, b: Seq<char>)
    ensures
        escape(a + b) == escape(a) + escape(b),
    decreases a.len(),
{
    if a.len() == 0 {
        assert(a + b =~= b);
        assert(escape(a) + escape(b) =~= escape(b));
    } else {
        assert((a + b).skip(1) =~= a.skip(1) + b);
        lemma_escape_app(a.skip(1), b);
        assert((a + b)[0] == a[0]);
        assert(escaped_char(a[0]) + (escape(a.skip(1)) + escape(b)) =~= (escaped_char(a[0])
            + escape(a.skip(1))) + escape(b));
    }
}

/// A string of characters that escape to themselves is its own wire form.
pub proof fn lemma_escape_plain(k: Seq<char>)
    requires
        forall|q: int| 0 <= q < k.len() ==> escaped_char(#[trigger] k[q]) == seq![k[q]],
    ensures
        escape(k) == k,
    decreases k.len(),
{
    if k.len() > 0 {
        assert(escaped_char(k[0]) == seq![k[0]]);
        lemma_escape_plain(k.skip(1));
        assert(escape(k) =~= seq![k[0]] + k.skip(1));
        assert(seq![k[0]] + k.skip(1) =~= k);
    }
}

/// The three member names are their own wire forms.
pub proof fn lemma_keys_plain()
    ensures
        escape(key_value()) == key_value(),
        escape(key_currency()) == key_currency(),
        escape(key_issuer()) == key_issuer(),
{
    assert forall|q: int| 0 <= q < key_value().len() implies escaped_char(
        #[trigger] key_value()[q],
    ) == seq![key_value()[q]] by {
        assert(key_value()[q] as u32 >= 0x20);
    }
    lemma_escape_plain(key_value());
    assert forall|q: int| 0 <= q < key_currency().len() implies escaped_char(
        #[trigger] key_currency()[q],
    ) == seq![key_currency()[q]] by {
        assert(key_currency()[q] as u32 >= 0x20);
    }
    lemma_escape_plain(key_currency());
    assert forall|q: int| 0 <= q < key_issuer().len() implies escaped_char(
        #[trigger] key_issuer()[q],
    ) == seq![key_issuer()[q]] by {
        assert(key_issuer()[q] as u32 >= 0x20);
    }
    lemma_escape_plain(key_issuer());
}

/// Where each piece of a canonical issued amount's wire text stands.
pub proof fn lemma_issued_layout(s: Seq<char>, r: IssuedAmountV)
    requires
        s == spec_encode(AmountV::Issued(r)),
    ensures
        ({
            let j1: int = 10 + escape(r.value).len() as int + 1;
            let j2: int = j1 + 13 + escape(r.currency).len() as int + 1;
            let j3: int = j2 + 11 + escape(r.issuer).len() as int + 1;
            &&& s.len() == j3 + 1
            &&& s.subrange(0, 10) == obj_head()
            &&& s.subrange(10, j1) == escape(r.value) + seq!['"']
            &&& s.subrange(j1, j1 + 13) == obj_sep_currency()
            &&& s.subrange(j1 + 13, j2) == escape(r.currency) + seq!['"']
            &&& s.subrange(j2, j2 + 11) == obj_sep_issuer()
            &&& s.subrange(j2 + 11, j3) == escape(r.issuer) + seq!['"']
            &&& s[j3] == '}'
        }),
{
    let j1: int = 10 + escape(r.value).len() as int + 1;
    let j2: int = j1 + 13 + escape(r.currency).len() as int + 1;
    let j3: int = j2 + 11 + escape(r.issuer).len() as int + 1;
    assert(obj_head().len() == 10);
    assert(obj_sep_currency().len() == 13);
    assert(obj_sep_issuer().len() == 11);
    assert(s.subrange(0, 10) =~= obj_head());
    assert(s.subrange(10, j1) =~= escape(r.value) + seq!['"']);
    assert(s.subrange(j1, j1 + 13) =~= obj_sep_currency());
    assert(s.subrange(j1 + 13, j2) =~= escape(r.currency) + seq!['"']);
    assert(s.subrange(j2, j2 + 11) =~= obj_sep_issuer());
    assert(s.subrange(j2 + 11, j3) =~= escape(r.issuer) + seq!['"']);
    assert(s[j3] == '}');
}

/// The lower-case hexadecimal digits read back as their values.
proof fn lemma_hex_char(d: nat)
    requires
        d < 16,
    ensures
        is_hex_digit(hex_digit_char(d)),
        hex_val(hex_digit_char(d)) == d,
{
}

/// Prepending one character at a time is prepending the grown prefix.
proof fn lemma_prepend_assoc(p: Seq<char>, c: char, o: Option<(Seq<char>, int)>)
    ensures
        prepend_read(p, prepend_read(seq![c], o)) == prepend_read(p.push(c), o),
{
    match o {
        Some((r, j)) => {
            assert(p + (seq![c] + r) =~= p.push(c) + r);
        },
        None => {},
    }
}

/// Reading canonical escaped content: from just past an opening quote,
/// over the emitted form of `v` and its closing quote, the reader yields
/// exactly `v` and stops just past that quote.
#[verifier::rlimit(60)]
pub proof fn lemma_read_escape(s: Seq<char>, i: int, v: Seq<char>, rest: Seq<char>)
    requires
        0 <= i <= s.len(),
        s.subrange(i, s.len() as int) == escape(v) + seq!['"'] + rest,
    ensures
        read_string(s, i) == Some((v, i + escape(v).len() + 1)),
    decreases v.len(),
{
    let tail = s.subrange(i, s.len() as int);
    assert(tail.len() == s.len() - i);
    assert(tail.len() == escape(v).len() + 1 + rest.len());
    if v.len() == 0 {
        assert(escape(v) =~= Seq::<char>::empty());
        assert(tail[0] == (escape(v) + seq!['"'] + rest)[0]);
        assert(tail[0] == '"');
        assert(s[i] == tail[0]);
        assert(v =~= Seq::<char>::empty());
    } else {
        let c = v[0];
        let e1 = escaped_char(c);
        assert(escape(v) == e1 + escape(v.skip(1)));
        assert(escape(v).len() == e1.len() + escape(v.skip(1)).len());
        assert(e1.len() >= 1);
        assert(i + e1.len() <= s.len());
        assert forall|q: int| 0 <= q < e1.len() implies s[i + q] == e1[q] by {
            assert(tail[q] == s[i + q]);
            assert(tail[q] == (escape(v) + seq!['"'] + rest)[q]);
            assert((escape(v) + seq!['"'] + rest)[q] == escape(v)[q]);
            assert(escape(v)[q] == (e1 + escape(v.skip(1)))[q]);
        }
        assert(s.subrange(i + e1.len(), s.len() as int) =~= escape(v.skip(1)) + seq!['"']
            + rest) by {
            assert forall|q: int| 0 <= q < s.len() - i - e1.len() implies s.subrange(
                i + e1.len(),
                s.len() as int,
            )[q] == (escape(v.skip(1)) + seq!['"'] + rest)[q] by {
                assert(s.subrange(i + e1.len(), s.len() as int)[q] == tail[q + e1.len()]);
                assert(tail[q + e1.len()] == (escape(v) + seq!['"'] + rest)[q + e1.len()]);
            }
        }
        lemma_read_escape(s, i + e1.len() as int, v.skip(1), rest);
        assert(seq![c] + v.skip(1) =~= v);
        if c == '"' || c == '\\' {
            assert(s[i] == '\\' && s[i + 1] == c);
            assert(simple_unescape(c) == Some(c));
            assert(read_string(s, i) == prepend_read(seq![c], read_string(s, i + 2)));
        } else if c == '\u{0008}' || c == '\u{000C}' || c == '\n' || c == '\r' || c == '\t' {
            assert(s[i] == '\\');
            let e = s[i + 1];
            assert(e == e1[1]);
            assert(simple_unescape(e) == Some(c));
            assert(e != 'u');
            assert(read_string(s, i) == prepend_read(seq![c], read_string(s, i + 2)));
        } else if (c as u32) < 0x20 {
            let u: u32 = c as u32;
            assert(s[i] == '\\' && s[i + 1] == 'u' && s[i + 2] == '0' && s[i + 3] == '0');
            assert(s[i + 4] == hex_digit_char((u / 16) as nat));
            assert(s[i + 5] == hex_digit_char((u % 16) as nat));
            lemma_hex_char((u / 16) as nat);
            lemma_hex_char((u % 16) as nat);
            assert(hex_val('0') == 0);
            assert(is_hex_digit('0'));
            assert(hex4_ok(s, i + 2));
            assert(hex4_val(s, i + 2) == 16 * (u / 16) + (u % 16));
            assert(16 * (u / 16) + (u % 16) == u) by (nonlinear_arith);
            assert(hex4_val(s, i + 2) < 0xD800);
            char_u32_cast(c, u);
            assert(code_char(hex4_val(s, i + 2)) == c);
            assert(read_string(s, i) == prepend_read(seq![c], read_string(s, i + 6)));
        } else {
            assert(s[i] == c);
            assert(c != '"' && c != '\\' && (c as u32) >= 0x20);
            assert(read_string(s, i) == prepend_read(seq![c], read_string(s, i + 1)));
        }
    }
}

/// Reading one canonical member: quote, plain key, quote, colon, quote,
/// escaped value, quote — no whitespace.
#[verifier::rlimit(60)]
proof fn lemma_read_member_canonical(
    s: Seq<char>,
    i: int,
    key: Seq<char>,
    v: Seq<char>,
    rest: Seq<char>,
)
    requires
        0 <= i <= s.len(),
        escape(key) == key,
        key.len() > 0,
        s.subrange(i, s.len() as int) == seq!['"'] + key + seq!['"', ':', '"'] + escape(v)
            + seq!['"'] + rest,
    ensures
        read_member(s, i) == Some((key, v, i + key.len() + escape(v).len() + 5)),
{
    let tail = s.subrange(i, s.len() as int);
    let kl: int = key.len() as int;
    assert(tail.len() == s.len() - i);
    assert(tail.len() == 1 + kl + 3 + escape(v).len() + 1 + rest.len());
    assert(tail[0] == (seq!['"'] + key + seq!['"', ':', '"'] + escape(v) + seq!['"'] + rest)[0]);
    assert(s[i] == tail[0]);
    assert(s[i] == '"');
    assert(!is_ws('"'));
    assert(skip_ws(s, i) == i);
    assert(s.subrange(i + 1, s.len() as int) =~= escape(key) + seq!['"'] + (seq![':', '"']
        + escape(v) + seq!['"'] + rest)) by {
        assert forall|q: int| 0 <= q < s.len() - i - 1 implies s.subrange(i + 1, s.len() as int)[q]
            == (escape(key) + seq!['"'] + (seq![':', '"'] + escape(v) + seq!['"'] + rest))[q] by {
            assert(s.subrange(i + 1, s.len() as int)[q] == tail[q + 1]);
            assert(tail[q + 1] == (seq!['"'] + key + seq!['"', ':', '"'] + escape(v) + seq!['"']
                + rest)[q + 1]);
        }
    }
    lemma_read_escape(s, i + 1, key, seq![':', '"'] + escape(v) + seq!['"'] + rest);
    let k1: int = i + 1 + kl + 1;
    assert(read_string(s, i + 1) == Some((key, k1)));
    assert(s[k1] == ':') by {
        assert(tail[k1 - i] == ':');
    }
    assert(!is_ws(':'));
    assert(skip_ws(s, k1) == k1);
    assert(s[k1 + 1] == '"') by {
        assert(tail[k1 + 1 - i] == '"');
    }
    assert(!is_ws('"'));
    assert(skip_ws(s, k1 + 1) == k1 + 1);
    assert(s.subrange(k1 + 2, s.len() as int) =~= escape(v) + seq!['"'] + rest) by {
        assert forall|q: int| 0 <= q < s.len() - k1 - 2 implies s.subrange(k1 + 2, s.len() as int)[q]
            == (escape(v) + seq!['"'] + rest)[q] by {
            assert(s.subrange(k1 + 2, s.len() as int)[q] == tail[q + k1 + 2 - i]);
        }
    }
    lemma_read_escape(s, k1 + 2, v, rest);
    assert(read_string(s, k1 + 2) == Some((v, k1 + 2 + escape(v).len() + 1)));
}


/// One member window of the canonical object text: a literal piece (brace
/// or comma, quote, key, quote-colon-quote) followed by escaped content
/// and its closing quote, read as the member shape starting one past the
/// literal's first character.
#[verifier::rlimit(100)]
proof fn lemma_member_window(
    s: Seq<char>,
    x: int,
    lit: Seq<char>,
    key: Seq<char>,
    content: Seq<char>,
    y: int,
)
    requires
        0 <= x,
        x + lit.len() <= y,
        y <= s.len(),
        lit.len() == key.len() + 5,
        lit == seq![lit[0]] + seq!['"'] + key + seq!['"', ':', '"'],
        s.subrange(x, x + lit.len()) == lit,
        s.subrange(x + lit.len(), y) == escape(content) + seq!['"'],
    ensures
        s.subrange(x + 1, s.len() as int) == seq!['"'] + key + seq!['"', ':', '"'] + escape(
            content,
        ) + seq!['"'] + s.subrange(y, s.len() as int),
{
    let rhs = seq!['"'] + key + seq!['"', ':', '"'] + escape(content) + seq!['"'] + s.subrange(
        y,
        s.len() as int,
    );
    let ll: int = lit.len() as int;
    assert(s.subrange(x + ll, y).len() == y - x - ll);
    assert((escape(content) + seq!['"']).len() == escape(content).len() + 1);
    assert(y - x - ll == escape(content).len() + 1);
    assert forall|q: int| 0 <= q < s.len() - x - 1 implies s.subrange(x + 1, s.len() as int)[q]
        == rhs[q] by {
        assert(s.subrange(x + 1, s.len() as int)[q] == s[x + 1 + q]);
        if q < ll - 1 {
            assert(s[x + 1 + q] == s.subrange(x, x + ll)[q + 1]);
            assert(lit[q + 1] == (seq![lit[0]] + seq!['"'] + key + seq!['"', ':', '"'])[q + 1]);
        } else if q < y - x - 1 {
            assert(s[x + 1 + q] == s.subrange(x + ll, y)[q + 1 - ll]);
        } else {
            assert(s[x + 1 + q] == s.subrange(y, s.len() as int)[x + 1 + q - y]);
        }
    }
    assert(s.subrange(x + 1, s.len() as int) =~= rhs);
}


/// One canonical member, read from just after its leading brace or comma.
#[verifier::rlimit(60)]
proof fn lemma_object_member(
    s: Seq<char>,
    x: int,
    lit: Seq<char>,
    key: Seq<char>,
    content: Seq<char>,
    y: int,
)
    requires
        0 <= x,
        x + lit.len() <= y,
        y <= s.len(),
        lit.len() == key.len() + 5,
        key.len() > 0,
        escape(key) == key,
        lit == seq![lit[0]] + seq!['"'] + key + seq!['"', ':', '"'],
        s.subrange(x, x + lit.len()) == lit,
        s.subrange(x + lit.len(), y) == escape(content) + seq!['"'],
    ensures
        read_member(s, x + 1) == Some((key, content, y)),
{
    lemma_member_window(s, x, lit, key, content, y);
    lemma_read_member_canonical(s, x + 1, key, content, s.subrange(y, s.len() as int));
    assert(s.subrange(x + lit.len(), y).len() == y - x - lit.len());
    assert(x + 1 + key.len() + escape(content).len() + 5 == y);
}

/// One member of the canonical object text, value position.
#[verifier::rlimit(100)]
#[verifier::spinoff_prover]
proof fn lemma_value_member_at(s: Seq<char>, key: Seq<char>, content: Seq<char>, x: int, lit: Seq<char>, y: int)
    requires
        0 <= x,
        x + lit.len() <= y,
        y <= s.len(),
        lit.len() == key.len() + 5,
        key.len() > 0,
        escape(key) == key,
        lit == seq![lit[0]] + seq!['"'] + key + seq!['"', ':', '"'],
        s.subrange(x, x + lit.len()) == lit,
        s.subrange(x + lit.len(), y) == escape(content) + seq!['"'],
    ensures
        read_member(s, x + 1) == Some((key, content, y)),
{
    lemma_object_member(s, x, lit, key, content, y);
}

/// The first member of the laid-out object text.
#[verifier::rlimit(100)]
#[verifier::spinoff_prover]
proof fn lemma_members_value(s: Seq<char>, r: IssuedAmountV)
    requires
        ({
            let j1: int = 10 + escape(r.value).len() as int + 1;
            let j2: int = j1 + 13 + escape(r.currency).len() as int + 1;
            let j3: int = j2 + 11 + escape(r.issuer).len() as int + 1;
            &&& s.len() == j3 + 1
            &&& s.subrange(0, 10) == obj_head()
            &&& s.subrange(10, j1) == escape(r.value) + seq!['"']
            &&& s.subrange(j1, j1 + 13) == obj_sep_currency()
            &&& s.subrange(j1 + 13, j2) == escape(r.currency) + seq!['"']
            &&& s.subrange(j2, j2 + 11) == obj_sep_issuer()
            &&& s.subrange(j2 + 11, j3) == escape(r.issuer) + seq!['"']
            &&& s[j3] == '}'
        }),
    ensures
        read_member(s, 1) == Some((key_value(), r.value, 10 + escape(r.value).len() as int + 1)),
{
    lemma_keys_plain();
    let j1: int = 10 + escape(r.value).len() as int + 1;
    assert(obj_head() =~= seq![obj_head()[0]] + seq!['"'] + key_value() + seq!['"', ':', '"']);
    lemma_object_member(s, 0, obj_head(), key_value(), r.value, j1);
}

/// The second member of the laid-out object text.
#[verifier::rlimit(100)]
#[verifier::spinoff_prover]
proof fn lemma_members_currency(s: Seq<char>, r: IssuedAmountV)
    requires
        ({
            let j1: int = 10 + escape(r.value).len() as int + 1;
            let j2: int = j1 + 13 + escape(r.currency).len() as int + 1;
            let j3: int = j2 + 11 + escape(r.issuer).len() as int + 1;
            &&& s.len() == j3 + 1
            &&& s.subrange(0, 10) == obj_head()
            &&& s.subrange(10, j1) == escape(r.value) + seq!['"']
            &&& s.subrange(j1, j1 + 13) == obj_sep_currency()
            &&& s.subrange(j1 + 13, j2) == escape(r.currency) + seq!['"']
            &&& s.subrange(j2, j2 + 11) == obj_sep_issuer()
            &&& s.subrange(j2 + 11, j3) == escape(r.issuer) + seq!['"']
            &&& s[j3] == '}'
        }),
    ensures
        ({
            let j1: int = 10 + escape(r.value).len() as int + 1;
            read_member(s, j1 + 1) == Some(
                (key_currency(), r.currency, j1 + 13 + escape(r.currency).len() as int + 1),
            )
        }),
{
    lemma_keys_plain();
    let j1: int = 10 + escape(r.value).len() as int + 1;
    let j2: int = j1 + 13 + escape(r.currency).len() as int + 1;
    assert(obj_sep_currency() =~= seq![obj_sep_currency()[0]] + seq!['"'] + key_currency()
        + seq!['"', ':', '"']);
    lemma_object_member(s, j1, obj_sep_currency(), key_currency(), r.currency, j2);
}

/// The third member of the laid-out object text.
#[verifier::rlimit(100)]
#[verifier::spinoff_prover]
proof fn lemma_members_issuer(s: Seq<char>, r: IssuedAmountV)
    requires
        ({
            let j1: int = 10 + escape(r.value).len() as int + 1;
            let j2: int = j1 + 13 + escape(r.currency).len() as int + 1;
            let j3: int = j2 + 11 + escape(r.issuer).len() as int + 1;
            &&& s.len() == j3 + 1
            &&& s.subrange(0, 10) == obj_head()
            &&& s.subrange(10, j1) == escape(r.value) + seq!['"']
            &&& s.subrange(j1, j1 + 13) == obj_sep_currency()
            &&& s.subrange(j1 + 13, j2) == escape(r.currency) + seq!['"']
            &&& s.subrange(j2, j2 + 11) == obj_sep_issuer()
            &&& s.subrange(j2 + 11, j3) == escape(r.issuer) + seq!['"']
            &&& s[j3] == '}'
        }),
    ensures
        ({
            let j2: int = 10 + escape(r.value).len() as int + 1 + 13 + escape(
                r.currency,
            ).len() as int + 1;
            read_member(s, j2 + 1) == Some(
                (key_issuer(), r.issuer, j2 + 11 + escape(r.issuer).len() as int + 1),
            )
        }),
{
    lemma_keys_plain();
    let j1: int = 10 + escape(r.value).len() as int + 1;
    let j2: int = j1 + 13 + escape(r.currency).len() as int + 1;
    let j3: int = j2 + 11 + escape(r.issuer).len() as int + 1;
    assert(obj_sep_issuer() =~= seq![obj_sep_issuer()[0]] + seq!['"'] + key_issuer()
        + seq!['"', ':', '"']);
    lemma_object_member(s, j2, obj_sep_issuer(), key_issuer(), r.issuer, j3);
}

/// The member-level reading of a canonical object text laid out as
/// `lemma_issued_layout` describes.
#[verifier::rlimit(100)]
#[verifier::spinoff_prover]
proof fn lemma_read_members_at(s: Seq<char>, r: IssuedAmountV)
    requires
        ({
            let j1: int = 10 + escape(r.value).len() as int + 1;
            let j2: int = j1 + 13 + escape(r.currency).len() as int + 1;
            let j3: int = j2 + 11 + escape(r.issuer).len() as int + 1;
            &&& s.len() == j3 + 1
            &&& s.subrange(0, 10) == obj_head()
            &&& s.subrange(10, j1) == escape(r.value) + seq!['"']
            &&& s.subrange(j1, j1 + 13) == obj_sep_currency()
            &&& s.subrange(j1 + 13, j2) == escape(r.currency) + seq!['"']
            &&& s.subrange(j2, j2 + 11) == obj_sep_issuer()
            &&& s.subrange(j2 + 11, j3) == escape(r.issuer) + seq!['"']
            &&& s[j3] == '}'
        }),
    ensures
        ({
            let j1: int = 10 + escape(r.value).len() as int + 1;
            let j2: int = j1 + 13 + escape(r.currency).len() as int + 1;
            let j3: int = j2 + 11 + escape(r.issuer).len() as int + 1;
            &&& s.len() == j3 + 1
            &&& s[0] == '{'
            &&& read_member(s, 1) == Some((key_value(), r.value, j1))
            &&& s[j1] == ',' && skip_ws(s, j1) == j1
            &&& read_member(s, j1 + 1) == Some((key_currency(), r.currency, j2))
            &&& s[j2] == ',' && skip_ws(s, j2) == j2
            &&& read_member(s, j2 + 1) == Some((key_issuer(), r.issuer, j3))
            &&& s[j3] == '}' && skip_ws(s, j3) == j3
        }),
{
    let j1: int = 10 + escape(r.value).len() as int + 1;
    let j2: int = j1 + 13 + escape(r.currency).len() as int + 1;
    let j3: int = j2 + 11 + escape(r.issuer).len() as int + 1;
    lemma_members_value(s, r);
    lemma_members_currency(s, r);
    lemma_members_issuer(s, r);
    assert(s[0] == '{') by {
        assert(s.subrange(0, 10)[0] == '{');
    }
    assert(s[j1] == ',') by {
        assert(s.subrange(j1, j1 + 13)[0] == ',');
    }
    assert(!is_ws(','));
    assert(skip_ws(s, j1) == j1);
    assert(s[j2] == ',') by {
        assert(s.subrange(j2, j2 + 11)[0] == ',');
    }
    assert(skip_ws(s, j2) == j2);
    assert(!is_ws('}'));
    assert(skip_ws(s, j3) == j3);
}

/// The object-level reading, from the member facts.
#[verifier::rlimit(100)]
#[verifier::spinoff_prover]
proof fn lemma_read_object_at(s: Seq<char>, r: IssuedAmountV)
    requires
        ({
            let j1: int = 10 + escape(r.value).len() as int + 1;
            let j2: int = j1 + 13 + escape(r.currency).len() as int + 1;
            let j3: int = j2 + 11 + escape(r.issuer).len() as int + 1;
            &&& s.len() == j3 + 1
            &&& s[0] == '{'
            &&& read_member(s, 1) == Some((key_value(), r.value, j1))
            &&& s[j1] == ',' && skip_ws(s, j1) == j1
            &&& read_member(s, j1 + 1) == Some((key_currency(), r.currency, j2))
            &&& s[j2] == ',' && skip_ws(s, j2) == j2
            &&& read_member(s, j2 + 1) == Some((key_issuer(), r.issuer, j3))
            &&& s[j3] == '}' && skip_ws(s, j3) == j3
        }),
    ensures
        s.len() >= 1,
        s[0] == '{',
        read_object(s, 0) == Some((r, s.len() as int)),
{
    let j1: int = 10 + escape(r.value).len() as int + 1;
    let j2: int = j1 + 13 + escape(r.currency).len() as int + 1;
    let j3: int = j2 + 11 + escape(r.issuer).len() as int + 1;
    assert(assign_members(
        key_value(),
        r.value,
        key_currency(),
        r.currency,
        key_issuer(),
        r.issuer,
    ) == Some(IssuedAmountV { value: r.value, currency: r.currency, issuer: r.issuer }));
    assert((IssuedAmountV { value: r.value, currency: r.currency, issuer: r.issuer }) =~= r);
    assert(read_object(s, 0) == Some((r, j3 + 1)));
}

/// The canonical object text reads back as its record.
#[verifier::rlimit(100)]
#[verifier::spinoff_prover]
proof fn lemma_read_object_encode(r: IssuedAmountV)
    ensures
        ({
            let s = spec_encode(AmountV::Issued(r));
            &&& s.len() >= 1
            &&& s[0] == '{'
            &&& read_object(s, 0) == Some((r, s.len() as int))
        }),
{
    let s = spec_encode(AmountV::Issued(r));
    lemma_issued_layout(s, r);
    lemma_read_members_at(s, r);
    lemma_read_object_at(s, r);
}

/// The object half of the round trip.
#[verifier::rlimit(100)]
proof fn lemma_read_encode_issued(r: IssuedAmountV)
    ensures
        spec_read(spec_encode(AmountV::Issued(r))) == Some(AmountV::Issued(r)),
{
    let s = spec_encode(AmountV::Issued(r));
    lemma_read_object_encode(r);
    assert(!is_ws('{'));
    assert(skip_ws(s, 0) == 0);
    assert(skip_ws(s, s.len() as int) == s.len());
}

/// The round trip: reading the canonical wire text of any amount yields
/// that amount. Together with `encode`'s and `decode`'s contracts this
/// says `decode` of `encode(a)` returns `Ok(a)` for every constructible
/// amount `a`.
#[verifier::rlimit(100)]
pub proof fn lemma_read_encode(a: AmountV)
    ensures
        spec_read(spec_encode(a)) == Some(a),
{
    let s = spec_encode(a);
    match a {
        AmountV::Drops(d) => {
            assert(s[0] == '"');
            assert(!is_ws('"'));
            assert(skip_ws(s, 0) == 0);
            assert(s.subrange(1, s.len() as int) =~= escape(d) + seq!['"']
                + Seq::<char>::empty());
            lemma_read_escape(s, 1, d, Seq::empty());
            assert(read_string(s, 1) == Some((d, s.len() as int)));
            assert(skip_ws(s, s.len() as int) == s.len());
        },
        AmountV::Issued(r) => {
            lemma_read_encode_issued(r);
        },
    }
}

/// The encoding is injective: two amounts with the same wire text are the
/// same amount.
pub proof fn lemma_encode_injective(a: AmountV, b: AmountV)
    requires
        spec_encode(a) == spec_encode(b),
    ensures
        a == b,
{
    lemma_read_encode(a);
    lemma_read_encode(b);
}


// ------------------------------------------------------------------
// The executable encoder.
// ------------------------------------------------------------------
/// The hexadecimal digit character for `d`, as an executable value.
fn hex_digit_to_char(d: u32) -> (c: char)
    requires
        d < 16,
    ensures
        c == hex_digit_char(d as nat),
{
    match d {
        0 => '0',
        1 => '1',
        2 => '2',
        3 => '3',
        4 => '4',
        5 => '5',
        6 => '6',
        7 => '7',
        8 => '8',
        9 => '9',
        10 => 'a',
        11 => 'b',
        12 => 'c',
        13 => 'd',
        14 => 'e',
        _ => 'f',
    }
}

/// Appends the wire (escaped) form of `s` to `out`.
fn push_escaped(out: &mut String, s: &str)
    ensures
        final(out)@ == old(out)@ + escape(s@),
{
    let n: usize = s.unicode_len();
    let mut i: usize = 0;
    proof {
        assert(s@.take(0) =~= Seq::<char>::empty());
        assert(out@ =~= old(out)@ + escape(s@.take(0)));
    }
    while i < n
        invariant
            i <= n,
            n == s@.len(),
            out@ == old(out)@ + escape(s@.take(i as int)),
        decreases n - i,
    {
        let ghost done = s@.take(i as int);
        let c = s.get_char(i);
        let u: u32 = c as u32;
        if c == '"' || c == '\\' {
            out.push('\\');
            out.push(c);
        } else if c == '\u{0008}' {
            out.push('\\');
            out.push('b');
        } else if c == '\u{000C}' {
            out.push('\\');
            out.push('f');
        } else if c == '\n' {
            out.push('\\');
            out.push('n');
        } else if c == '\r' {
            out.push('\\');
            out.push('r');
        } else if c == '\t' {
            out.push('\\');
            out.push('t');
        } else if u < 0x20 {
            out.push('\\');
            out.push('u');
            out.push('0');
            out.push('0');
            out.push(hex_digit_to_char(u / 16));
            out.push(hex_digit_to_char(u % 16));
        } else {
            out.push(c);
        }
        proof {
            lemma_escape_app(done, seq![c]);
            assert(escape(seq![c]) =~= escaped_char(c)) by {
                assert(seq![c].skip(1) =~= Seq::<char>::empty());
                assert(escape(seq![c]) == escaped_char(c) + escape(seq![c].skip(1)));
                assert(escape(Seq::<char>::empty()) =~= Seq::<char>::empty());
                assert(escaped_char(c) + Seq::<char>::empty() =~= escaped_char(c));
            }
            assert(s@.take(i + 1) =~= done + seq![c]);
            assert(out@ =~= old(out)@ + escape(s@.take(i + 1)));
        }
        i = i + 1;
    }
    proof {
        assert(s@.take(n as int) =~= s@);
    }
}

/// Appends the characters of `p` to `out`.
fn push_lit(out: &mut String, p: &Vec<char>)
    ensures
        final(out)@ == old(out)@ + p@,
{
    let mut k: usize = 0;
    proof {
        assert(out@ =~= old(out)@ + p@.take(0));
    }
    while k < p.len()
        invariant
            k <= p@.len(),
            out@ == old(out)@ + p@.take(k as int),
        decreases p@.len() - k,
    {
        out.push(p[k]);
        proof {
            assert(p@.take(k + 1) =~= p@.take(k as int).push(p@[k as int]));
            assert(out@ =~= old(out)@ + p@.take(k + 1));
        }
        k = k + 1;
    }
    proof {
        assert(p@.take(p@.len() as int) =~= p@);
    }
}

/// The opening literal `{"value":"` as runtime characters.
fn lit_obj_head() -> (p: Vec<char>)
    ensures
        p@ == obj_head(),
{
    let mut p: Vec<char> = Vec::new();
    p.push('{');
    p.push('"');
    p.push('v');
    p.push('a');
    p.push('l');
    p.push('u');
    p.push('e');
    p.push('"');
    p.push(':');
    p.push('"');
    proof {
        assert(p@ =~= obj_head());
    }
    p
}

/// The separator literal `,"currency":"` as runtime characters.
fn lit_sep_currency() -> (p: Vec<char>)
    ensures
        p@ == obj_sep_currency(),
{
    let mut p: Vec<char> = Vec::new();
    p.push(',');
    p.push('"');
    p.push('c');
    p.push('u');
    p.push('r');
    p.push('r');
    p.push('e');
    p.push('n');
    p.push('c');
    p.push('y');
    p.push('"');
    p.push(':');
    p.push('"');
    proof {
        assert(p@ =~= obj_sep_currency());
    }
    p
}

/// The separator literal `,"issuer":"` as runtime characters.
fn lit_sep_issuer() -> (p: Vec<char>)
    ensures
        p@ == obj_sep_issuer(),
{
    let mut p: Vec<char> = Vec::new();
    p.push(',');
    p.push('"');
    p.push('i');
    p.push('s');
    p.push('s');
    p.push('u');
    p.push('e');
    p.push('r');
    p.push('"');
    p.push(':');
    p.push('"');
    proof {
        assert(p@ =~= obj_sep_issuer());
    }
    p
}

/// The member name `value` as runtime characters.
fn lit_key_value() -> (p: Vec<char>)
    ensures
        p@ == key_value(),
{
    let mut p: Vec<char> = Vec::new();
    p.push('v');
    p.push('a');
    p.push('l');
    p.push('u');
    p.push('e');
    proof {
        assert(p@ =~= key_value());
    }
    p
}

/// The member name `currency` as runtime characters.
fn lit_key_currency() -> (p: Vec<char>)
    ensures
        p@ == key_currency(),
{
    let mut p: Vec<char> = Vec::new();
    p.push('c');
    p.push('u');
    p.push('r');
    p.push('r');
    p.push('e');
    p.push('n');
    p.push('c');
    p.push('y');
    proof {
        assert(p@ =~= key_currency());
    }
    p
}

/// The member name `issuer` as runtime characters.
fn lit_key_issuer() -> (p: Vec<char>)
    ensures
        p@ == key_issuer(),
{
    let mut p: Vec<char> = Vec::new();
    p.push('i');
    p.push('s');
    p.push('s');
    p.push('u');
    p.push('e');
    p.push('r');
    proof {
        assert(p@ =~= key_issuer());
    }
    p
}

impl Amount {
    /// Renders this amount as its canonical wire text: a `Drops` value as
    /// a bare string literal, an `Issued` value as the compact three-member
    /// object with the members in the order `value`, `currency`, `issuer`.
    /// Quotes, backslashes and control characters in string content travel
    /// escaped, so the output is always a well-formed JSON value.
    pub fn encode(&self) -> (r: String)
        ensures
            r@ == spec_encode(self@),
    {
        let mut out = String::new();
        match self {
            Amount::Drops(d) => {
                out.push('"');
                push_escaped(&mut out, d.as_str());
                out.push('"');
                proof {
                    assert(out@ =~= seq!['"'] + escape(d@) + seq!['"']);
                }
            },
            Amount::Issued(rec) => {
                let head = lit_obj_head();
                let sep_cur = lit_sep_currency();
                let sep_iss = lit_sep_issuer();
                push_lit(&mut out, &head);
                proof {
                    assert(out@ =~= obj_head());
                }
                push_escaped(&mut out, rec.value.as_str());
                out.push('"');
                proof {
                    assert(out@ =~= obj_head() + escape(rec.value@) + seq!['"']);
                }
                push_lit(&mut out, &sep_cur);
                push_escaped(&mut out, rec.currency.as_str());
                out.push('"');
                proof {
                    assert(out@ =~= obj_head() + escape(rec.value@) + seq!['"']
                        + obj_sep_currency() + escape(rec.currency@) + seq!['"']);
                }
                push_lit(&mut out, &sep_iss);
                push_escaped(&mut out, rec.issuer.as_str());
                out.push('"');
                out.push('}');
                proof {
                    assert(out@ =~= obj_head() + escape(rec.value@) + seq!['"']
                        + obj_sep_currency() + escape(rec.currency@) + seq!['"']
                        + obj_sep_issuer() + escape(rec.issuer@) + seq!['"'] + seq!['}']);
                }
            },
        }
        out
    }
}


// ------------------------------------------------------------------
// The executable decoder.
// ------------------------------------------------------------------
/// The index of the first non-whitespace character at or after `i`.
fn skip_from(s: &str, n: usize, i: usize) -> (r: usize)
    requires
        n == s@.len(),
        i <= n,
    ensures
        i <= r <= n,
        r as int == skip_ws(s@, i as int),
{
    let mut k: usize = i;
    while k < n
        invariant_except_break
            n == s@.len(),
            i <= k <= n,
            skip_ws(s@, i as int) == skip_ws(s@, k as int),
        ensures
            i <= k <= n,
            skip_ws(s@, i as int) == skip_ws(s@, k as int),
            k == n || !is_ws(s@[k as int]),
        decreases n - k,
    {
        let c = s.get_char(k);
        if !(c == ' ' || c == '\t' || c == '\n' || c == '\r') {
            break ;
        }
        k = k + 1;
    }
    proof {
        assert(skip_ws(s@, k as int) == k as int);
    }
    k
}

/// The value of one hexadecimal digit character.
fn hex_digit_value(c: char) -> (r: Option<u32>)
    ensures
        r matches Some(v) ==> is_hex_digit(c) && v as nat == hex_val(c) && v < 16,
        r is None ==> !is_hex_digit(c),
{
    let u: u32 = c as u32;
    if u >= 48 && u <= 57 {
        Some(u - 48)
    } else if u >= 97 && u <= 102 {
        Some(u - 87)
    } else if u >= 65 && u <= 70 {
        Some(u - 55)
    } else {
        None
    }
}

/// Reads four hexadecimal digits at `i`.
fn read_hex4(s: &str, n: usize, i: usize) -> (r: Option<u32>)
    requires
        n == s@.len(),
        i <= n,
    ensures
        r matches Some(u) ==> hex4_ok(s@, i as int) && u as nat == hex4_val(s@, i as int) && u
            < 0x10000,
        r is None ==> !hex4_ok(s@, i as int),
{
    if n - i < 4 {
        return None;
    }
    let a = match hex_digit_value(s.get_char(i)) {
        Some(v) => v,
        None => {
            return None;
        },
    };
    let b = match hex_digit_value(s.get_char(i + 1)) {
        Some(v) => v,
        None => {
            return None;
        },
    };
    let c = match hex_digit_value(s.get_char(i + 2)) {
        Some(v) => v,
        None => {
            return None;
        },
    };
    let d = match hex_digit_value(s.get_char(i + 3)) {
        Some(v) => v,
        None => {
            return None;
        },
    };
    Some(4096 * a + 256 * b + 16 * c + d)
}

/// Reads a JSON string from just past its opening quote, mirroring
/// [`read_string`].
fn string_from(s: &str, n: usize, start: usize) -> (r: Option<(String, usize)>)
    requires
        n == s@.len(),
        start <= n,
    ensures
        match r {
            Some((v, j)) => read_string(s@, start as int) == Some((v@, j as int)) && j <= n,
            None => read_string(s@, start as int) is None,
        },
{
    let mut i: usize = start;
    let mut acc = String::new();
    proof {
        match read_string(s@, start as int) {
            Some((r0, j0)) => {
                assert(Seq::<char>::empty() + r0 =~= r0);
            },
            None => {},
        }
        assert(prepend_read(acc@, read_string(s@, i as int)) == read_string(
            s@,
            start as int,
        ));
    }
    while i < n
        invariant
            n == s@.len(),
            start <= i <= n,
            prepend_read(acc@, read_string(s@, i as int)) == read_string(s@, start as int),
        decreases n - i,
    {
        let c = s.get_char(i);
        let ghost acc_old = acc@;
        if c == '"' {
            proof {
                assert(acc_old + Seq::<char>::empty() =~= acc_old);
            }
            return Some((acc, i + 1));
        } else if c == '\\' {
            if n - i < 2 {
                return None;
            }
            let e = s.get_char(i + 1);
            if e == 'u' {
                match read_hex4(s, n, i + 2) {
                    None => {
                        return None;
                    },
                    Some(u) => {
                        if u < 0xD800 || u > 0xDFFF {
                            let c2 = match char::from_u32(u) {
                                Some(x) => x,
                                None => {
                                    proof {
                                        assert(false);
                                    }
                                    return None;
                                },
                            };
                            proof {
                                char_u32_cast(c2, u);
                                assert(code_char(u as nat) == c2);
                                lemma_prepend_assoc(acc_old, c2, read_string(s@, i + 6));
                            }
                            acc.push(c2);
                            i = i + 6;
                        } else if u < 0xDC00 {
                            if n - i < 12 {
                                return None;
                            }
                            if s.get_char(i + 6) != '\\' {
                                return None;
                            }
                            if s.get_char(i + 7) != 'u' {
                                return None;
                            }
                            match read_hex4(s, n, i + 8) {
                                None => {
                                    return None;
                                },
                                Some(l) => {
                                    if l < 0xDC00 || l > 0xDFFF {
                                        return None;
                                    }
                                    let code: u32 = 0x10000 + (u - 0xD800) * 0x400 + (l
                                        - 0xDC00);
                                    let c2 = match char::from_u32(code) {
                                        Some(x) => x,
                                        None => {
                                            proof {
                                                assert(false);
                                            }
                                            return None;
                                        },
                                    };
                                    proof {
                                        char_u32_cast(c2, code);
                                        assert(surrogate_code(u as nat, l as nat)
                                            == code as nat);
                                        assert(code_char(surrogate_code(u as nat, l as nat))
                                            == c2);
                                        lemma_prepend_assoc(
                                            acc_old,
                                            c2,
                                            read_string(s@, i + 12),
                                        );
                                    }
                                    acc.push(c2);
                                    i = i + 12;
                                },
                            }
                        } else {
                            return None;
                        }
                    },
                }
            } else if e == '"' || e == '\\' || e == '/' || e == 'b' || e == 'f' || e == 'n'
                || e == 'r' || e == 't' {
                let c2: char = if e == '"' {
                    '"'
                } else if e == '\\' {
                    '\\'
                } else if e == '/' {
                    '/'
                } else if e == 'b' {
                    '\u{0008}'
                } else if e == 'f' {
                    '\u{000C}'
                } else if e == 'n' {
                    '\n'
                } else if e == 'r' {
                    '\r'
                } else {
                    '\t'
                };
                proof {
                    assert(simple_unescape(e) == Some(c2));
                    lemma_prepend_assoc(acc_old, c2, read_string(s@, i + 2));
                }
                acc.push(c2);
                i = i + 2;
            } else {
                proof {
                    assert(simple_unescape(e) is None);
                }
                return None;
            }
        } else if (c as u32) < 0x20 {
            return None;
        } else {
            proof {
                lemma_prepend_assoc(acc_old, c, read_string(s@, i + 1));
            }
            acc.push(c);
            i = i + 1;
        }
    }
    None
}

/// Whether the string and the character vector hold the same text.
fn chars_eq(k: &String, p: &Vec<char>) -> (b: bool)
    ensures
        b <==> k@ == p@,
{
    let ks: &str = k.as_str();
    let n: usize = ks.unicode_len();
    if n != p.len() {
        return false;
    }
    let mut q: usize = 0;
    while q < n
        invariant
            ks@ == k@,
            n == k@.len(),
            n == p@.len(),
            q <= n,
            forall|t: int| 0 <= t < q ==> k@[t] == p@[t],
        decreases n - q,
    {
        if ks.get_char(q) != p[q] {
            proof {
                if k@ == p@ {
                    assert(k@[q as int] == p@[q as int]);
                }
            }
            return false;
        }
        q = q + 1;
    }
    proof {
        assert(k@ =~= p@);
    }
    true
}

/// Reads one object member, mirroring [`read_member`].
fn member_from(s: &str, n: usize, i: usize) -> (r: Option<(String, String, usize)>)
    requires
        n == s@.len(),
        i <= n,
    ensures
        match r {
            Some((k, v, j)) => read_member(s@, i as int) == Some((k@, v@, j as int)) && j <= n,
            None => read_member(s@, i as int) is None,
        },
{
    let k0 = skip_from(s, n, i);
    if k0 == n {
        return None;
    }
    if s.get_char(k0) != '"' {
        return None;
    }
    match string_from(s, n, k0 + 1) {
        None => None,
        Some((key, k1)) => {
            let k2 = skip_from(s, n, k1);
            if k2 == n {
                return None;
            }
            if s.get_char(k2) != ':' {
                return None;
            }
            let k3 = skip_from(s, n, k2 + 1);
            if k3 == n {
                return None;
            }
            if s.get_char(k3) != '"' {
                return None;
            }
            match string_from(s, n, k3 + 1) {
                None => None,
                Some((val, k4)) => Some((key, val, k4)),
            }
        },
    }
}

/// The shape-mismatch error for the payload `s`.
fn shape_err(s: &str) -> (e: AmountError)
    ensures
        e matches AmountError::ShapeMismatch(raw) && raw@ == s@,
{
    AmountError::ShapeMismatch(String::from_str(s))
}

/// The object arm of `decode`: called once the first significant
/// character is the brace.
fn decode_object(s: &str, n: usize, w0: usize) -> (r: Result<Amount, AmountError>)
    requires
        n == s@.len(),
        w0 < n,
        s@[w0 as int] == '{',
        skip_ws(s@, 0) == w0 as int,
    ensures
        r matches Ok(a) ==> spec_read(s@) == Some(a@),
        r is Err ==> spec_read(s@) is None,
        r matches Err(e) ==> e matches AmountError::ShapeMismatch(raw) && raw@ == s@,
{
    match member_from(s, n, w0 + 1) {
        None => Err(shape_err(s)),
        Some((k1, v1, a)) => {
            let a1 = skip_from(s, n, a);
            if a1 == n {
                return Err(shape_err(s));
            }
            if s.get_char(a1) != ',' {
                return Err(shape_err(s));
            }
            match member_from(s, n, a1 + 1) {
                None => Err(shape_err(s)),
                Some((k2, v2, b)) => {
                    let b1 = skip_from(s, n, b);
                    if b1 == n {
                        return Err(shape_err(s));
                    }
                    if s.get_char(b1) != ',' {
                        return Err(shape_err(s));
                    }
                    match member_from(s, n, b1 + 1) {
                        None => Err(shape_err(s)),
                        Some((k3, v3, c)) => {
                            let c1 = skip_from(s, n, c);
                            if c1 == n {
                                return Err(shape_err(s));
                            }
                            if s.get_char(c1) != '}' {
                                return Err(shape_err(s));
                            }
                            let kv = lit_key_value();
                            let kc = lit_key_currency();
                            let ki = lit_key_issuer();
                            let k1v = chars_eq(&k1, &kv);
                            let k1c = chars_eq(&k1, &kc);
                            let k1i = chars_eq(&k1, &ki);
                            let k2v = chars_eq(&k2, &kv);
                            let k2c = chars_eq(&k2, &kc);
                            let k2i = chars_eq(&k2, &ki);
                            let k3v = chars_eq(&k3, &kv);
                            let k3c = chars_eq(&k3, &kc);
                            let k3i = chars_eq(&k3, &ki);
                            let rec: IssuedAmount = if k1v && k2c && k3i {
                                IssuedAmount { value: v1, currency: v2, issuer: v3 }
                            } else if k1v && k2i && k3c {
                                IssuedAmount { value: v1, currency: v3, issuer: v2 }
                            } else if k1c && k2v && k3i {
                                IssuedAmount { value: v2, currency: v1, issuer: v3 }
                            } else if k1c && k2i && k3v {
                                IssuedAmount { value: v3, currency: v1, issuer: v2 }
                            } else if k1i && k2v && k3c {
                                IssuedAmount { value: v2, currency: v3, issuer: v1 }
                            } else if k1i && k2c && k3v {
                                IssuedAmount { value: v3, currency: v2, issuer: v1 }
                            } else {
                                return Err(shape_err(s));
                            };
                            let w1 = skip_from(s, n, c1 + 1);
                            if w1 == n {
                                Ok(Amount::Issued(rec))
                            } else {
                                Err(shape_err(s))
                            }
                        },
                    }
                },
            }
        },
    }
}

impl Amount {
    /// Reads an amount back from wire text: optional whitespace, then
    /// either a bare JSON string — the `Drops` variant, content taken
    /// verbatim after unescaping — or a JSON object whose three string
    /// members `value`, `currency` and `issuer` may come in any order.
    /// Every other shape — a number, an array, `null`, an object with a
    /// missing, extra, duplicated or non-string member — is a shape
    /// mismatch carrying the offending text. The accepted reading is
    /// [`spec_read`]; by [`lemma_read_encode`], decoding what `encode`
    /// produced gives the original amount back.
    pub fn decode(s: &str) -> (r: Result<Amount, AmountError>)
        ensures
            r matches Ok(a) ==> spec_read(s@) == Some(a@),
            r is Err ==> spec_read(s@) is None,
            r matches Err(e) ==> e matches AmountError::ShapeMismatch(raw) && raw@ == s@,
    {
        let n: usize = s.unicode_len();
        let w0 = skip_from(s, n, 0);
        if w0 == n {
            return Err(shape_err(s));
        }
        let c0 = s.get_char(w0);
        if c0 == '"' {
            match string_from(s, n, w0 + 1) {
                None => Err(shape_err(s)),
                Some((v, j)) => {
                    let w1 = skip_from(s, n, j);
                    if w1 == n {
                        Ok(Amount::Drops(v))
                    } else {
                        Err(shape_err(s))
                    }
                },
            }
        } else if c0 == '{' {
            decode_object(s, n, w0)
        } else {
            Err(shape_err(s))
        }
    }
}

} // verus!
