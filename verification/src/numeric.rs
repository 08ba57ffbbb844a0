//! Exact decimal numbers (through `bigdecimal`) and JSON string decoding
//! (through `serde_json`), the two computations literals borrow from
//! outside crates.

use bigdecimal::BigDecimal;
use std::cmp::Ordering;
use std::str::FromStr;
use vstd::prelude::*;

verus! {

/// Whether `bigdecimal` reads the UTF-8 text `token` as a decimal number.
pub uninterp spec fn decimal_numeral(token: Seq<u8>) -> bool;

/// The string that `serde_json` decodes from the JSON string text `token`.
pub uninterp spec fn json_string_value(token: Seq<u8>) -> Option<Seq<char>>;

/// How `bigdecimal` orders the numbers that two numerals denote.
pub uninterp spec fn decimal_order(left: Seq<u8>, right: Seq<u8>) -> Ordering;

/// The order read the other way round.
pub open spec fn reversed_order(o: Ordering) -> Ordering {
    match o {
        Ordering::Less => Ordering::Greater,
        Ordering::Equal => Ordering::Equal,
        Ordering::Greater => Ordering::Less,
    }
}

/// Whether `BigDecimal::from_str` reads the UTF-8 text `token` as a number.
///
/// Claimed: the answer is the name `decimal_numeral` of the bytes.
#[verifier::external_body]
pub fn is_decimal_numeral(token: &[u8]) -> (b: bool)
    ensures
        b == decimal_numeral(token@),
{
    std::str::from_utf8(token).ok().and_then(|text| BigDecimal::from_str(text).ok()).is_some()
}

/// Reads two numerals with `BigDecimal::from_str` and compares the numbers
/// with `BigDecimal`'s `cmp`.
///
/// Claimed: there is an answer exactly when both are numerals; it is the name
/// `decimal_order` of the two numerals; and, `BigDecimal`'s `Ord` being a
/// total order, the comparison the other way round is reversed and a numeral
/// compares equal to itself.
#[verifier::external_body]
pub fn compare_decimals(left: &[u8], right: &[u8]) -> (r: Option<Ordering>)
    ensures
        r is Some <==> (decimal_numeral(left@) && decimal_numeral(right@)),
        r is Some ==> r == Some(decimal_order(left@, right@)),
        r is Some ==> r == Some(reversed_order(decimal_order(right@, left@))),
        r is Some && left@ == right@ ==> r == Some(Ordering::Equal),
{
    let left = BigDecimal::from_str(std::str::from_utf8(left).ok()?).ok()?;
    let right = BigDecimal::from_str(std::str::from_utf8(right).ok()?).ok()?;
    Some(left.cmp(&right))
}

/// The two numerals denote the same number.
pub open spec fn same_number(left: Seq<u8>, right: Seq<u8>) -> bool {
    decimal_order(left, right) == Ordering::Equal
}

/// Numeric equality of two numerals (`1.0` equals `1.00`); `None` unless
/// both are numerals.
pub fn decimals_equal(left: &[u8], right: &[u8]) -> (r: Option<bool>)
    ensures
        r is Some <==> decimal_numeral(left@) && decimal_numeral(right@),
        r matches Some(b) ==> b == same_number(left@, right@),
        r matches Some(b) ==> b == same_number(right@, left@),
        r is Some && left@ == right@ ==> r == Some(true),
{
    match compare_decimals(left, right) {
        Some(Ordering::Equal) => Some(true),
        Some(_) => Some(false),
        None => None,
    }
}

/// Decodes a JSON string text with `serde_json::from_slice::<String>`.
///
/// Claimed: the result is the name `json_string_value` of the bytes.
#[verifier::external_body]
pub fn decode_json_string(token: &[u8]) -> (r: Option<String>)
    ensures
        r is Some <==> json_string_value(token@) is Some,
        r matches Some(s) ==> json_string_value(token@) == Some(s@),
{
    serde_json::from_slice::<String>(token).ok()
}

} // verus!
