//! The texts of integers, as `serde_json` writes its numbers.

use crate::text::decimal;
use vstd::prelude::*;

verus! {

/// The numeral of an integer: a minus sign before the digits of a negative one.
pub open spec fn signed_decimal(i: int) -> Seq<char> {
    if i < 0 {
        "-"@ + decimal((-i) as nat)
    } else {
        decimal(i as nat)
    }
}

/// The text of a non-negative integer. The call is `Display` of
/// `serde_json::Number` on the number made by `Number::from` of a `u64`, which
/// writes the integer in decimal digits, without sign or leading zeros.
#[verifier::external_body]
pub(crate) fn unsigned_text(value: u64) -> (r: String)
    ensures
        r@ == decimal(value as nat),
{
    serde_json::Number::from(value).to_string()
}

/// The text of an integer. The call is `Display` of `serde_json::Number` on
/// the number made by `Number::from` of an `i64`, which writes the integer in
/// decimal digits, with a minus sign before a negative one.
#[verifier::external_body]
pub(crate) fn signed_text(value: i64) -> (r: String)
    ensures
        r@ == signed_decimal(value as int),
{
    serde_json::Number::from(value).to_string()
}

} // verus!
