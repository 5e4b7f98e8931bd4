//! Numbers and bytes as text.

use vstd::prelude::*;
use vstd::string::*;

use crate::config::{digits_value, is_decimal_digit};

verus! {

/// The decimal digit `d`.
pub open spec fn digit_char(d: nat) -> char {
    (48 + d) as char
}

/// `n` in decimal, without leading zeros.
pub open spec fn decimal(n: nat) -> Seq<char>
    decreases n,
{
    if n < 10 {
        seq![digit_char(n)]
    } else {
        decimal(n / 10).push(digit_char(n % 10))
    }
}

/// The lower-case hexadecimal digit `d`.
pub open spec fn hex_char(d: nat) -> char {
    if d < 10 {
        (48 + d) as char
    } else {
        (87 + d) as char
    }
}

/// Two lower-case hexadecimal digits for each byte.
pub open spec fn lower_hex(bytes: Seq<u8>) -> Seq<char> {
    Seq::new(
        2 * bytes.len(),
        |i: int|
            if i % 2 == 0 {
                hex_char(bytes[i / 2] as nat / 16)
            } else {
                hex_char(bytes[i / 2] as nat % 16)
            },
    )
}

/// What a hash is printed as: `0x` and its bytes in hexadecimal.
pub open spec fn hash_text(hash: Seq<u8>) -> Seq<char> {
    "0x"@ + lower_hex(hash)
}

/// Whether `c` is a hexadecimal digit, in either case.
pub open spec fn is_hex_digit(c: char) -> bool {
    ('0' <= c && c <= '9') || ('a' <= c && c <= 'f') || ('A' <= c && c <= 'F')
}

/// The value of a hexadecimal digit.
pub open spec fn hex_value(c: char) -> int {
    if c <= '9' {
        c as int - 48
    } else if c <= 'F' {
        c as int - 55
    } else {
        c as int - 87
    }
}

/// The bytes that `text` spells with two hexadecimal digits each, if it does.
pub open spec fn decode_hex(text: Seq<char>) -> Option<Seq<u8>> {
    if text.len() % 2 == 0 && forall|i: int|
        0 <= i < text.len() ==> is_hex_digit(#[trigger] text[i]) {
        Some(
            Seq::new(
                text.len() / 2,
                |i: int| (16 * hex_value(text[2 * i]) + hex_value(text[2 * i + 1])) as u8,
            ),
        )
    } else {
        None
    }
}

/// Why `hex::decode` refused a string.
#[verifier::external_type_specification]
#[verifier::external_body]
pub struct ExFromHexError(hex::FromHexError);

/// Calls `hex::encode`, which writes two lower-case hexadecimal digits for each byte.
#[verifier::external_body]
pub(crate) fn hex_encode(bytes: &[u8; 32]) -> (text: String)
    ensures
        text@ == lower_hex(bytes@),
{
    hex::encode(bytes)
}

/// Calls `hex::decode`, which takes an even number of hexadecimal digits of either case, two for
/// each byte, and refuses every other string.
#[verifier::external_body]
pub(crate) fn hex_decode(text: &str) -> (bytes: Result<Vec<u8>, hex::FromHexError>)
    ensures
        match bytes {
            Ok(bytes) => decode_hex(text@) == Some(bytes@),
            Err(_) => decode_hex(text@) is None,
        },
{
    hex::decode(text)
}

/// The decimal digit `d` as text.
fn digit_text(d: u64) -> (text: &'static str)
    requires
        d < 10,
    ensures
        text@ == seq![digit_char(d as nat)],
{
    proof {
        reveal_strlit("0");
        reveal_strlit("1");
        reveal_strlit("2");
        reveal_strlit("3");
        reveal_strlit("4");
        reveal_strlit("5");
        reveal_strlit("6");
        reveal_strlit("7");
        reveal_strlit("8");
        reveal_strlit("9");
    }
    let text = match d {
        0 => "0",
        1 => "1",
        2 => "2",
        3 => "3",
        4 => "4",
        5 => "5",
        6 => "6",
        7 => "7",
        8 => "8",
        _ => "9",
    };
    proof {
        assert(text@ =~= seq![digit_char(d as nat)]);
    }
    text
}

/// `n` in decimal.
pub fn decimal_text(n: u64) -> (text: String)
    ensures
        text@ == decimal(n as nat),
    decreases n,
{
    if n < 10 {
        digit_text(n).to_owned()
    } else {
        let text = decimal_text(n / 10).concat(digit_text(n % 10));
        proof {
            assert(text@ =~= decimal(n as nat));
        }
        text
    }
}

/// What a hash is printed as.
pub fn print_hash(hash: &[u8; 32]) -> (text: String)
    ensures
        text@ == hash_text(hash@),
{
    "0x".to_owned().concat(hex_encode(hash).as_str())
}

/// Bytes written in hexadecimal are read back.
pub proof fn lemma_hex_roundtrip(bytes: Seq<u8>)
    ensures
        decode_hex(lower_hex(bytes)) == Some(bytes),
{
    let text = lower_hex(bytes);
    assert forall|i: int| 0 <= i < text.len() implies is_hex_digit(#[trigger] text[i]) by {
        let byte = bytes[i / 2];
        assert(0 <= byte as nat / 16 < 16);
        assert(0 <= byte as nat % 16 < 16);
    }
    let decoded = Seq::new(
        text.len() / 2,
        |i: int| (16 * hex_value(text[2 * i]) + hex_value(text[2 * i + 1])) as u8,
    );
    assert forall|i: int| 0 <= i < bytes.len() implies decoded[i] == #[trigger] bytes[i] by {
        let byte = bytes[i] as nat;
        assert((2 * i) / 2 == i && (2 * i + 1) / 2 == i);
        assert(hex_value(text[2 * i]) == byte / 16);
        assert(hex_value(text[2 * i + 1]) == byte % 16);
    }
    assert(decoded =~= bytes);
}

/// A number in decimal is made of digits, spells the number, and has no leading zero.
pub proof fn lemma_decimal_spells(n: nat)
    ensures
        digits_value(decimal(n)) == n,
        decimal(n).len() > 0,
        forall|i: int| 0 <= i < decimal(n).len() ==> is_decimal_digit(#[trigger] decimal(n)[i]),
        n > 0 ==> decimal(n)[0] != '0',
        n == 0 ==> decimal(n) == seq!['0'],
    decreases n,
{
    reveal_with_fuel(digits_value, 2);
    if n < 10 {
        assert(seq![digit_char(n)].drop_last() =~= Seq::empty());
    } else {
        lemma_decimal_spells(n / 10);
        assert(decimal(n).drop_last() =~= decimal(n / 10));
    }
}

} // verus!
