//! Which part of the Bitcoin mainchain a sidechain block speaks of.
//!
//! A block's `extraData` holds the hash of the mainchain block it was built on. The block covers
//! the mainchain blocks after its parent's up to and including its own.

use vstd::prelude::*;
use vstd::string::*;

use crate::text::{hash_text, lower_hex, print_hash};
use crate::words::to_array;

verus! {

/// Mainchain blocks after `start` (from the beginning, if there is none) up to and including
/// `end`.
#[derive(Debug, Clone, Copy, PartialEq, Eq)]
pub struct MainchainRange {
    pub start: Option<[u8; 32]>,
    pub end: [u8; 32],
}

/// The mainchain block that `extra_data` names: its 32 bytes, if it has exactly so many.
pub open spec fn main_hash_in(extra_data: Seq<u8>) -> Option<Seq<u8>> {
    if extra_data.len() == 32 {
        Some(extra_data)
    } else {
        None
    }
}

/// The bytes of an optional hash.
pub open spec fn optional_hash(hash: Option<[u8; 32]>) -> Option<Seq<u8>> {
    match hash {
        Some(hash) => Some(hash@),
        None => None,
    }
}

/// Whether `range` is the one covered by a block with `extra_data` whose parent has
/// `parent_extra_data`.
pub open spec fn covers(
    range: MainchainRange,
    parent_extra_data: Seq<u8>,
    extra_data: Seq<u8>,
) -> bool {
    &&& optional_hash(range.start) == main_hash_in(parent_extra_data)
    &&& Some(range.end@) == main_hash_in(extra_data)
}

/// The mainchain block that `extra_data` names, if it does.
pub fn main_hash(extra_data: &Vec<u8>) -> (hash: Option<[u8; 32]>)
    ensures
        optional_hash(hash) == main_hash_in(extra_data@),
{
    if extra_data.len() == 32 {
        Some(to_array(extra_data))
    } else {
        None
    }
}

/// The mainchain range that a block covers, if its `extraData` names a mainchain block. A parent
/// whose `extraData` names none (such as genesis) leaves the beginning open.
pub fn covered_range(parent_extra_data: &Vec<u8>, extra_data: &Vec<u8>) -> (range: Option<
    MainchainRange,
>)
    ensures
        match range {
            Some(range) => covers(range, parent_extra_data@, extra_data@),
            None => main_hash_in(extra_data@) is None,
        },
{
    match main_hash(extra_data) {
        Some(end) => Some(MainchainRange { start: main_hash(parent_extra_data), end }),
        None => None,
    }
}

/// What an optional hash is printed as.
pub open spec fn optional_hash_text(hash: Option<[u8; 32]>) -> Seq<char> {
    match hash {
        Some(hash) => "Some("@ + hash_text(hash@) + ")"@,
        None => "None"@,
    }
}

/// What an optional hash is printed as.
pub fn print_optional_hash(hash: &Option<[u8; 32]>) -> (text: String)
    ensures
        text@ == optional_hash_text(*hash),
{
    match hash {
        Some(hash) => "Some(".to_owned().concat(print_hash(hash).as_str()).concat(")"),
        None => "None".to_owned(),
    }
}

/// Blocks that follow one another cover the mainchain without gap or overlap: where the child's
/// range begins, the parent's ends.
pub proof fn lemma_ranges_are_adjacent(
    grandparent_extra_data: Seq<u8>,
    parent_extra_data: Seq<u8>,
    extra_data: Seq<u8>,
    parent_range: MainchainRange,
    range: MainchainRange,
)
    requires
        covers(parent_range, grandparent_extra_data, parent_extra_data),
        covers(range, parent_extra_data, extra_data),
    ensures
        optional_hash(range.start) == Some(parent_range.end@),
{
}

/// A block and its parent determine the range: building a block, executing it and validating it
/// all speak of the same mainchain blocks.
pub proof fn lemma_range_is_determined(
    a: MainchainRange,
    b: MainchainRange,
    parent_extra_data: Seq<u8>,
    extra_data: Seq<u8>,
)
    requires
        covers(a, parent_extra_data, extra_data),
        covers(b, parent_extra_data, extra_data),
    ensures
        a == b,
{
    assert(a.end =~= b.end);
    if let (Some(start_a), Some(start_b)) = (a.start, b.start) {
        assert(start_a =~= start_b);
    }
}

/// A block covers the mainchain up to the very block that the 32 bytes of its `extraData` name,
/// from the one that its parent's 32 bytes name, or from the beginning where the parent has not
/// exactly 32; and every `extraData` of 32 bytes has such a range.
pub proof fn lemma_range_is_spelled_out(
    range: MainchainRange,
    parent_extra_data: Seq<u8>,
    extra_data: Seq<u8>,
)
    ensures
        covers(range, parent_extra_data, extra_data) <==> {
            &&& extra_data.len() == 32
            &&& range.end@ == extra_data
            &&& parent_extra_data.len() == 32 ==> (range.start matches Some(start) && start@
                == parent_extra_data)
            &&& parent_extra_data.len() != 32 ==> range.start is None
        },
        main_hash_in(extra_data) is Some <==> extra_data.len() == 32,
        extra_data.len() == 32 ==> main_hash_in(extra_data) == Some(extra_data),
{
}

/// An optional hash is printed with its digits, or as nothing.
pub proof fn lemma_optional_hash_text(hash: [u8; 32])
    ensures
        optional_hash_text(Some(hash)) == "Some(0x"@ + lower_hex(hash@) + ")"@,
        optional_hash_text(None) == "None"@,
{
    reveal_strlit("Some(0x");
    reveal_strlit("Some(");
    reveal_strlit("0x");
    assert("Some(0x"@ =~= "Some("@ + "0x"@);
    assert("Some("@ + ("0x"@ + lower_hex(hash@)) + ")"@ =~= "Some(0x"@ + lower_hex(hash@) + ")"@);
}

} // verus!
