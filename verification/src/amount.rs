//! The amount types: a native-asset quantity in drops, or an issued-token
//! quantity against a specific issuer, plus the descriptor and error types
//! around them.

use vstd::prelude::*;
use vstd::string::StringExecFns;

use crate::digits::{
    decimal_drops, digits_of, digits_val, first_dot, frac_drops, frac_part, int_part, is_digit,
    is_digits, lemma_digits_of_val, lemma_digits_val_concat, lemma_first_dot_at,
    lemma_first_dot_bounds, lemma_zero_digits_val, pow10, u64_to_string, valid_decimal,
};

verus! {

/// The mathematical reading of an [`IssuedAmount`]: its three fields as
/// character sequences.
#[verifier::ext_equal]
pub struct IssuedAmountV {
    pub value: Seq<char>,
    pub currency: Seq<char>,
    pub issuer: Seq<char>,
}

/// The mathematical reading of an [`Amount`].
#[verifier::ext_equal]
pub enum AmountV {
    Issued(IssuedAmountV),
    Drops(Seq<char>),
}

/// Amount of XRP or of an issued token.
///
/// `Drops` holds a decimal-digit string counting the native asset's smallest
/// unit; `Issued` holds a value / currency / issuer record. Exactly one
/// variant is active, and the two wire shapes (bare string vs. object) never
/// overlap, so no discriminator travels with the value.
#[derive(Debug, Eq, PartialEq, Clone)]
pub enum Amount {
    Issued(IssuedAmount),
    Drops(String),
}

/// Amount of an issued token: a decimal value string, a currency code and
/// the issuing account, all opaque strings at this layer.
#[derive(Debug, Eq, PartialEq, Clone)]
pub struct IssuedAmount {
    /// Decimal representation of the token quantity.
    pub value: String,
    /// Currency code.
    pub currency: String,
    /// Issuer of the token.
    pub issuer: String,
}

/// Descriptor of an asset: the native one, or an issued currency with its
/// issuer. Lets a caller build an [`Amount`] without branching on the kind
/// of asset it holds.
#[derive(Debug, Eq, PartialEq, Clone)]
pub enum Currency {
    Xrp,
    Issued { currency: String, issuer: String },
}

/// The two failure kinds of this crate. Each carries the offending input
/// text so the caller can log or retry at a higher level.
#[derive(Debug, Eq, PartialEq, Clone)]
pub enum AmountError {
    /// The input to decimal-to-drops conversion was not an acceptable
    /// decimal number.
    ParseError(String),
    /// The wire payload was neither a bare string nor a well-formed
    /// issued-amount object.
    ShapeMismatch(String),
}

impl View for IssuedAmount {
    type V = IssuedAmountV;

    open spec fn view(&self) -> IssuedAmountV {
        IssuedAmountV { value: self.value@, currency: self.currency@, issuer: self.issuer@ }
    }
}

impl View for Amount {
    type V = AmountV;

    open spec fn view(&self) -> AmountV {
        match self {
            Amount::Issued(record) => AmountV::Issued(record@),
            Amount::Drops(drops) => AmountV::Drops(drops@),
        }
    }
}

impl IssuedAmount {
    /// Builds the record field by field, with no validation: garbage in,
    /// garbage out, as the protocol layer is the one that validates.
    pub fn new(value: &str, currency: &str, issuer: &str) -> (r: IssuedAmount)
        ensures
            r@ == (IssuedAmountV { value: value@, currency: currency@, issuer: issuer@ }),
    {
        IssuedAmount {
            value: String::from_str(value),
            currency: String::from_str(currency),
            issuer: String::from_str(issuer),
        }
    }
}

impl Amount {
    /// Builds an issued-token amount from its three parts, with no
    /// validation.
    pub fn issued(value: &str, currency: &str, issuer: &str) -> (r: Amount)
        ensures
            r@ == AmountV::Issued(
                IssuedAmountV { value: value@, currency: currency@, issuer: issuer@ },
            ),
    {
        Amount::Issued(IssuedAmount::new(value, currency, issuer))
    }

    /// Builds a native-asset amount from an already-converted drop count.
    /// Cannot fail.
    pub fn drops(value: u64) -> (r: Amount)
        ensures
            r@ == AmountV::Drops(digits_of(value as nat)),
    {
        Amount::Drops(u64_to_string(value))
    }
}

/// The parse error for the input `s`.
fn parse_err(s: &str) -> (e: AmountError)
    ensures
        e matches AmountError::ParseError(raw) && raw@ == s@,
{
    AmountError::ParseError(String::from_str(s))
}

impl Amount {
    /// Converts a human-readable decimal XRP quantity into drops, at one
    /// million drops per unit.
    ///
    /// The conversion is exact digit arithmetic on the decimal string —
    /// the whole part is shifted six places, the fraction contributes its
    /// first six digits and anything past them is cut off, which is the
    /// floor of the exact product — rather than a detour through binary
    /// floating point, whose rounding would mis-count drops for inputs
    /// with many significant digits. Every valid decimal converts, however
    /// large: the result is a digit string. Accepted inputs are plain
    /// unsigned decimals: digits with at most one point and at least one
    /// digit. Anything else is a parse error carrying the input.
    pub fn xrp(value: &str) -> (r: Result<Amount, AmountError>)
        ensures
            valid_decimal(value@) ==> (r matches Ok(a) && a@ == AmountV::Drops(
                digits_of(decimal_drops(value@)),
            )),
            !valid_decimal(value@) ==> (r matches Err(e)
                && e matches AmountError::ParseError(raw) && raw@ == value@),
    {
        let n: usize = value.unicode_len();
        let mut i: usize = 0;
        let mut int_ds: Vec<char> = Vec::new();
        proof {
            assert(value@.take(0) =~= Seq::<char>::empty());
        }
        while i < n
            invariant_except_break
                n == value@.len(),
                i <= n,
                forall|q: int|
                    0 <= q < i ==> is_digit(#[trigger] value@[q]) && value@[q] != '.',
                int_ds@ == value@.take(i as int),
            ensures
                n == value@.len(),
                i <= n,
                forall|q: int|
                    0 <= q < i ==> is_digit(#[trigger] value@[q]) && value@[q] != '.',
                int_ds@ == value@.take(i as int),
                i == n || value@[i as int] == '.',
            decreases n - i,
        {
            let c = value.get_char(i);
            if c == '.' {
                break ;
            }
            let u: u32 = c as u32;
            if u < 48 || u > 57 {
                proof {
                    lemma_first_dot_bounds(value@);
                    let fd: int = first_dot(value@);
                    assert(fd > i) by {
                        if fd <= i {
                            assert(value@[fd] == '.');
                        }
                    }
                    assert(int_part(value@)[i as int] == value@[i as int]);
                    assert(!is_digit(value@[i as int]));
                    assert(!valid_decimal(value@));
                }
                return Err(parse_err(value));
            }
            int_ds.push(c);
            proof {
                assert(value@.take(i + 1) =~= value@.take(i as int).push(c));
            }
            i = i + 1;
        }
        let int_len: usize = i;
        proof {
            lemma_first_dot_at(value@, i as int);
            assert(int_part(value@) == value@.take(i as int));
            assert(is_digits(int_part(value@)));
        }
        let mut frac_ds: Vec<char> = Vec::new();
        if i < n {
            let fstart: usize = i + 1;
            let ghost fr = value@.subrange(fstart as int, n as int);
            proof {
                assert(frac_part(value@) == value@.skip(fstart as int));
                assert(value@.skip(fstart as int) =~= fr);
            }
            if int_len == 0 && fstart == n {
                proof {
                    assert(int_part(value@).len() + frac_part(value@).len() == 0);
                }
                return Err(parse_err(value));
            }
            let mut k: usize = fstart;
            proof {
                assert(value@.subrange(fstart as int, fstart as int) =~= Seq::<char>::empty());
            }
            while k < n
                invariant
                    n == value@.len(),
                    i < n,
                    fstart == i + 1,
                    first_dot(value@) == i as int,
                    frac_part(value@) == fr,
                    fr == value@.subrange(fstart as int, n as int),
                    fstart <= k <= n,
                    forall|q: int| fstart <= q < k ==> is_digit(#[trigger] value@[q]),
                    frac_ds@ == value@.subrange(fstart as int, k as int),
                decreases n - k,
            {
                let c = value.get_char(k);
                let u: u32 = c as u32;
                if u < 48 || u > 57 {
                    proof {
                        assert(frac_part(value@)[k - fstart] == value@[k as int]);
                        assert(!is_digit(value@[k as int]));
                        assert(!valid_decimal(value@));
                    }
                    return Err(parse_err(value));
                }
                frac_ds.push(c);
                proof {
                    assert(value@.subrange(fstart as int, k + 1) =~= value@.subrange(
                        fstart as int,
                        k as int,
                    ).push(c));
                }
                k = k + 1;
            }
            proof {
                assert(frac_ds@ == fr);
                assert(is_digits(fr));
                assert(int_part(value@).len() + frac_part(value@).len() > 0);
                assert(valid_decimal(value@));
            }
        } else {
            if int_len == 0 {
                proof {
                    assert(int_part(value@).len() + frac_part(value@).len() == 0);
                }
                return Err(parse_err(value));
            }
            proof {
                assert(frac_part(value@) =~= Seq::<char>::empty());
                assert(frac_ds@ == frac_part(value@));
                assert(valid_decimal(value@));
            }
        }
        let ghost int_seq = int_ds@;
        let ghost frac_seq = frac_ds@;
        let mut all: Vec<char> = int_ds;
        let mut t: usize = 0;
        proof {
            assert(all@ =~= int_seq + Seq::new(0, |x: int| ' '));
        }
        while t < 6
            invariant
                t <= 6,
                frac_seq == frac_ds@,
                all@ == int_seq + Seq::new(
                    t as nat,
                    |x: int|
                        if x < frac_seq.len() {
                            frac_seq[x]
                        } else {
                            '0'
                        },
                ),
            decreases 6 - t,
        {
            let ghost f = |x: int|
                if x < frac_seq.len() {
                    frac_seq[x]
                } else {
                    '0'
                };
            if t < frac_ds.len() {
                all.push(frac_ds[t]);
            } else {
                all.push('0');
            }
            proof {
                assert(Seq::new((t + 1) as nat, f) =~= Seq::new(t as nat, f).push(f(t as int)));
                assert(all@ =~= int_seq + Seq::new((t + 1) as nat, f));
            }
            t = t + 1;
        }
        let ghost frac6 = Seq::new(
            6,
            |x: int|
                if x < frac_seq.len() {
                    frac_seq[x]
                } else {
                    '0'
                },
        );
        proof {
            let fr = frac_part(value@);
            assert(frac_seq == fr);
            assert(all@ == int_seq + frac6);
            if fr.len() >= 6 {
                assert(frac6 =~= fr.take(6));
                assert(digits_val(frac6) == frac_drops(fr));
            } else {
                let pad = frac6.skip(fr.len() as int);
                assert(frac6 =~= fr + pad);
                assert(forall|x: int| 0 <= x < pad.len() ==> pad[x] == '0');
                lemma_digits_val_concat(fr, pad);
                lemma_zero_digits_val(pad);
                assert(pad.len() == 6 - fr.len());
                assert(digits_val(frac6) == frac_drops(fr));
            }
            lemma_digits_val_concat(int_seq, frac6);
            reveal_with_fuel(pow10, 8);
            assert(pow10(6) == 1000000);
            assert(digits_val(all@) == decimal_drops(value@));
            assert(is_digits(all@)) by {
                assert(forall|x: int|
                    0 <= x < all@.len() && x < int_seq.len() ==> #[trigger] all@[x]
                        == int_seq[x]);
                assert(forall|x: int|
                    int_seq.len() <= x < all@.len() ==> #[trigger] all@[x] == frac6[x
                        - int_seq.len()]);
                assert(is_digit('0'));
            }
        }
        let m: usize = all.len();
        let mut z: usize = 0;
        while z < m
            invariant_except_break
                z <= m,
                m == all@.len(),
                forall|q: int| 0 <= q < z ==> all@[q] == '0',
            ensures
                z <= m,
                m == all@.len(),
                forall|q: int| 0 <= q < z ==> all@[q] == '0',
                z == m || all@[z as int] != '0',
            decreases m - z,
        {
            if all[z] != '0' {
                break ;
            }
            z = z + 1;
        }
        let mut out = String::new();
        if z == m {
            proof {
                lemma_zero_digits_val(all@);
                assert(digits_of(0) =~= seq!['0']);
            }
            out.push('0');
            proof {
                assert(out@ =~= digits_of(decimal_drops(value@)));
            }
        } else {
            proof {
                let stripped = all@.subrange(z as int, m as int);
                assert(all@ =~= all@.subrange(0, z as int) + stripped);
                lemma_digits_val_concat(all@.subrange(0, z as int), stripped);
                lemma_zero_digits_val(all@.subrange(0, z as int));
                assert(0 * pow10(stripped.len()) == 0) by (nonlinear_arith);
                assert(digits_val(all@) == digits_val(stripped));
                assert(is_digits(stripped));
                assert(stripped[0] == all@[z as int]);
                lemma_digits_of_val(stripped);
            }
            let mut w: usize = z;
            proof {
                assert(all@.subrange(z as int, z as int) =~= Seq::<char>::empty());
            }
            while w < m
                invariant
                    z <= w <= m,
                    m == all@.len(),
                    out@ == all@.subrange(z as int, w as int),
                decreases m - w,
            {
                out.push(all[w]);
                proof {
                    assert(all@.subrange(z as int, w + 1) =~= all@.subrange(
                        z as int,
                        w as int,
                    ).push(all@[w as int]));
                }
                w = w + 1;
            }
            proof {
                assert(out@ == all@.subrange(z as int, m as int));
                assert(out@ =~= digits_of(decimal_drops(value@)));
            }
        }
        Ok(Amount::Drops(out))
    }

    /// Builds an amount for the asset `currency` describes: drops converted
    /// from `value` for the native asset, an issued amount carrying
    /// `value` with the descriptor's code and issuer otherwise. Only the
    /// native conversion can fail, with the parse error of [`Amount::xrp`].
    pub fn with_currency(value: &str, currency: &Currency) -> (r: Result<Amount, AmountError>)
        ensures
            currency matches Currency::Xrp ==> {
                &&& valid_decimal(value@) ==> (r matches Ok(a) && a@ == AmountV::Drops(
                    digits_of(decimal_drops(value@)),
                ))
                &&& !valid_decimal(value@) ==> (r matches Err(e)
                    && e matches AmountError::ParseError(raw) && raw@ == value@)
            },
            currency matches Currency::Issued { currency: code, issuer } ==> (r matches Ok(a)
                && a@ == AmountV::Issued(
                IssuedAmountV { value: value@, currency: code@, issuer: issuer@ },
            )),
    {
        match currency {
            Currency::Issued { currency: code, issuer } => Ok(
                Amount::issued(value, code.as_str(), issuer.as_str()),
            ),
            Currency::Xrp => Amount::xrp(value),
        }
    }
}

impl Default for Amount {
    /// The zero amount: the `Drops` variant holding the string for zero.
    fn default() -> (r: Amount)
        ensures
            r@ == AmountV::Drops(seq!['0']),
    {
        proof {
            assert(digits_of(0) =~= seq!['0']);
        }
        Amount::drops(0)
    }
}

} // verus!
