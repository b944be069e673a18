//! Currency amounts for the XRP Ledger.
//!
//! An [`Amount`] is either a quantity of the native asset, counted in drops
//! (its smallest indivisible unit, one millionth of one XRP) and carried as a
//! decimal-digit string, or a quantity of an issued token, carried as a
//! value / currency / issuer record ([`IssuedAmount`]).
//!
//! The wire form is untagged: a native amount travels as a bare JSON string,
//! an issued amount as a flat JSON object with exactly the fields `value`,
//! `currency` and `issuer`, in that order. The active variant is recovered
//! from the shape of the payload alone. [`Amount::encode`] and
//! [`Amount::decode`] carry exact contracts: decoding succeeds precisely on
//! the encodings, and encoding is injective, so the pair is lossless.

pub mod amount;
pub mod codec;
pub mod digits;
pub mod text;

pub use amount::{Amount, AmountError, Currency, IssuedAmount};
