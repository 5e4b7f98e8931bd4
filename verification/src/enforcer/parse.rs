//! Bytes that the enforcer writes in hexadecimal.

use vstd::prelude::*;
use vstd::string::*;

use super::error::{EnforcerError, EnforcerErrorView};
use crate::text::{
    decode_hex, hash_text, hex_decode, hex_value, is_hex_digit, lemma_hex_roundtrip, lower_hex,
};
use crate::words::to_array;

verus! {

/// `text` without a leading `0x` or `0X`.
pub open spec fn without_0x(text: Seq<char>) -> Seq<char> {
    if text.len() >= 2 && text[0] == '0' && (text[1] == 'x' || text[1] == 'X') {
        text.skip(2)
    } else {
        text
    }
}

/// The `length` bytes that `text` spells in hexadecimal, with or without `0x`.
pub open spec fn parse_bytes(text: Seq<char>, length: nat) -> Result<Seq<u8>, EnforcerErrorView> {
    match decode_hex(without_0x(text)) {
        Some(bytes) => if bytes.len() == length {
            Ok(bytes)
        } else {
            Err(EnforcerErrorView::InvalidHex(text))
        },
        None => Err(EnforcerErrorView::InvalidHex(text)),
    }
}

/// The bytes of an array, or what the error holds.
pub open spec fn parsed<const N: usize>(result: Result<[u8; N], EnforcerError>) -> Result<
    Seq<u8>,
    EnforcerErrorView,
> {
    match result {
        Ok(bytes) => Ok(bytes@),
        Err(error) => Err(error@),
    }
}

/// `hex_str` without a leading `0x` or `0X`.
pub fn strip_0x(hex_str: &str) -> (stripped: &str)
    ensures
        stripped@ == without_0x(hex_str@),
{
    let length: usize = hex_str.unicode_len();
    if length >= 2 && hex_str.get_char(0) == '0' {
        let second = hex_str.get_char(1);
        if second == 'x' || second == 'X' {
            let stripped = hex_str.substring_char(2, length);
            proof {
                assert(stripped@ =~= hex_str@.skip(2));
            }
            return stripped;
        }
    }
    hex_str
}

/// Parses `hex_str` as exactly `N` bytes.
fn parse_array<const N: usize>(hex_str: &str) -> (bytes: Result<[u8; N], EnforcerError>)
    ensures
        parsed(bytes) == parse_bytes(hex_str@, N as nat),
{
    match hex_decode(strip_0x(hex_str)) {
        Ok(bytes) => if bytes.len() == N {
            Ok(to_array(&bytes))
        } else {
            Err(EnforcerError::InvalidHex(hex_str.to_owned()))
        },
        Err(_) => Err(EnforcerError::InvalidHex(hex_str.to_owned())),
    }
}

/// Parses a 32-byte hash.
pub fn parse_hex32(hex_str: &str) -> (hash: Result<[u8; 32], EnforcerError>)
    ensures
        parsed(hash) == parse_bytes(hex_str@, 32),
{
    parse_array::<32>(hex_str)
}

/// Parses a 20-byte address.
pub fn parse_address(hex_str: &str) -> (address: Result<[u8; 20], EnforcerError>)
    ensures
        parsed(address) == parse_bytes(hex_str@, 20),
{
    parse_array::<20>(hex_str)
}

/// Parses a `ConsensusHex`-encoded txid, i.e. raw/internal byte order, as Bitcoin's consensus
/// encoding has it: the bytes are deliberately **not** reversed, as they are where a txid is shown
/// to people.
pub fn parse_txid_consensus(hex_str: &str) -> (txid: Result<[u8; 32], EnforcerError>)
    ensures
        parsed(txid) == parse_bytes(hex_str@, 32),
{
    parse_array::<32>(hex_str)
}

/// A hash that is sent in hexadecimal is read back, with or without `0x` or `0X` before it.
pub proof fn lemma_hash_roundtrip(hash: Seq<u8>)
    ensures
        parse_bytes("0X"@ + lower_hex(hash), hash.len()) == Ok::<Seq<u8>, EnforcerErrorView>(hash),
        parse_bytes(lower_hex(hash), hash.len()) == Ok::<Seq<u8>, EnforcerErrorView>(hash),
        parse_bytes("0x"@ + lower_hex(hash), hash.len()) == Ok::<Seq<u8>, EnforcerErrorView>(hash),
{
    lemma_hex_roundtrip(hash);
    let text = lower_hex(hash);
    assert(decode_hex(text) is Some);
    if text.len() >= 2 {
        assert(is_hex_digit(text[1]));
    }
    reveal_strlit("0x");
    reveal_strlit("0X");
    assert(("0x"@ + text).skip(2) =~= text);
    assert(("0X"@ + text).skip(2) =~= text);
}

/// A printed hash is read back, and is 66 characters long.
pub proof fn lemma_printed_hash_roundtrip(hash: Seq<u8>)
    requires
        hash.len() == 32,
    ensures
        hash_text(hash).len() == 66,
        parse_bytes(hash_text(hash), 32) == Ok::<Seq<u8>, EnforcerErrorView>(hash),
{
    lemma_hash_roundtrip(hash);
    reveal_strlit("0x");
}

/// Text that spells another number of bytes, or that is no hexadecimal at all, is refused, and the
/// refusal quotes it.
pub proof fn lemma_other_text_is_refused(text: Seq<char>, length: nat)
    ensures
        text.len() != 2 * length && text.len() != 2 * length + 2 ==> parse_bytes(text, length)
            == Err::<Seq<u8>, EnforcerErrorView>(EnforcerErrorView::InvalidHex(text)),
        parse_bytes(text, length) matches Ok(bytes) ==> bytes.len() == length,
        parse_bytes(text, length) matches Err(error) ==> error == EnforcerErrorView::InvalidHex(
            text,
        ),
{
}

/// Text is accepted only if it is two hexadecimal digits for each byte, the higher one first and
/// the bytes in order, after `0x`, `0X` or nothing.
pub proof fn lemma_accepted_text_spells_the_bytes(
    text: Seq<char>,
    length: nat,
    bytes: Seq<u8>,
    i: int,
)
    requires
        parse_bytes(text, length) == Ok::<Seq<u8>, EnforcerErrorView>(bytes),
        0 <= i < length,
    ensures
        bytes.len() == length,
        text.len() == 2 * length || (text.len() == 2 * length + 2 && text[0] == '0' && (text[1]
            == 'x' || text[1] == 'X')),
        ({
            let at = text.len() - 2 * length + 2 * i;
            &&& is_hex_digit(text[at])
            &&& is_hex_digit(text[at + 1])
            &&& bytes[i] == 16 * hex_value(text[at]) + hex_value(text[at + 1])
        }),
{
    let digits = without_0x(text);
    let at = text.len() - 2 * length + 2 * i;
    assert(is_hex_digit(digits[2 * i]));
    assert(is_hex_digit(digits[2 * i + 1]));
    assert(digits[2 * i] == text[at]);
    assert(digits[2 * i + 1] == text[at + 1]);
}

} // verus!
