//! What the node is told through its environment.

use vstd::prelude::*;
use vstd::string::*;

use crate::text::{decimal, lemma_decimal_spells};

verus! {

/// The sidechain slot that the node registers as, unless told otherwise.
pub const DEFAULT_SIDECHAIN_ID: u32 = 10;

/// Whether `c` is a decimal digit.
pub open spec fn is_decimal_digit(c: char) -> bool {
    '0' <= c && c <= '9'
}

/// The number that a sequence of decimal digits spells.
pub open spec fn digits_value(digits: Seq<char>) -> nat
    decreases digits.len(),
{
    if digits.len() == 0 {
        0
    } else {
        digits_value(digits.drop_last()) * 10 + (digits.last() as int - 48) as nat
    }
}

/// The number that `text` spells: decimal digits, at least one, after an optional plus sign.
pub open spec fn number_in(text: Seq<char>) -> Option<nat> {
    let digits = if text.len() > 0 && text[0] == '+' {
        text.skip(1)
    } else {
        text
    };
    if digits.len() > 0 && forall|i: int|
        0 <= i < digits.len() ==> is_decimal_digit(#[trigger] digits[i]) {
        Some(digits_value(digits))
    } else {
        None
    }
}

/// The number that `text` spells, if it is a `u32`.
pub open spec fn u32_in(text: Seq<char>) -> Option<u32> {
    match number_in(text) {
        Some(n) => if n <= u32::MAX {
            Some(n as u32)
        } else {
            None
        },
        None => None,
    }
}

/// Why a string is not a number.
#[verifier::external_type_specification]
#[verifier::external_body]
pub struct ExParseIntError(std::num::ParseIntError);

/// Calls `str::parse::<u32>`, which takes decimal digits, at least one, after an optional plus
/// sign, and refuses every other string and every number that is too large.
#[verifier::external_body]
fn parse_u32(text: &str) -> (number: Result<u32, std::num::ParseIntError>)
    ensures
        match number {
            Ok(number) => u32_in(text@) == Some(number),
            Err(_) => u32_in(text@) is None,
        },
{
    text.parse::<u32>()
}

/// Where the enforcer listens: `url` if it is given.
pub fn enforcer_url(url: Option<String>) -> (chosen: String)
    ensures
        match url {
            Some(url) => chosen == url,
            None => chosen@ == "http://127.0.0.1:8080"@,
        },
{
    match url {
        Some(url) => url,
        None => "http://127.0.0.1:8080".to_owned(),
    }
}

/// The sidechain slot number: what `id` spells if it is given, and slot 10 otherwise.
pub fn sidechain_id(id: Option<String>) -> (chosen: Result<u32, std::num::ParseIntError>)
    ensures
        match id {
            Some(id) => match chosen {
                Ok(number) => u32_in(id@) == Some(number),
                Err(_) => u32_in(id@) is None,
            },
            None => chosen == Ok::<u32, std::num::ParseIntError>(DEFAULT_SIDECHAIN_ID),
        },
{
    match id {
        Some(id) => parse_u32(id.as_str()),
        None => Ok(DEFAULT_SIDECHAIN_ID),
    }
}

/// A slot number in decimal, with or without a plus sign, stands for itself, if 32 bits can hold
/// it.
pub proof fn lemma_slot_number_roundtrip(n: nat)
    ensures
        n <= u32::MAX ==> u32_in(decimal(n)) == Some(n as u32),
        n <= u32::MAX ==> u32_in(seq!['+'] + decimal(n)) == Some(n as u32),
        n > u32::MAX ==> u32_in(decimal(n)) is None,
        u32_in(Seq::empty()) is None,
{
    lemma_decimal_spells(n);
    let signed = seq!['+'] + decimal(n);
    assert(signed.skip(1) =~= decimal(n));
    assert(is_decimal_digit(decimal(n)[0]));
}

} // verus!
