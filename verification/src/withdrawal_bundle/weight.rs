//! Serialized sizes of Bitcoin outputs, and the weight that a bundle transaction will have once
//! its treasury input is attached.

use vstd::prelude::*;

verus! {

/// Bytes of a serialized amount.
pub const AMOUNT_SIZE: u32 = 8;

/// Bytes of a serialized transaction version.
pub const VERSION_SIZE: u32 = 4;

/// Bytes of a serialized lock time.
pub const LOCKTIME_SIZE: u32 = 4;

/// Bytes of a serialized reference to a previous output.
pub const OUTPOINT_SIZE: u32 = 36;

/// Bytes of a serialized input sequence number.
pub const SEQUENCE_SIZE: u32 = 4;

/// Bytes of the script that commits to the requests of a bundle.
pub const REQUESTS_COMMITMENT_SPK_SIZE: u32 = 34;

/// Bytes of the script that commits to the mainchain fee of a bundle.
pub const FEE_COMMITMENT_SPK_SIZE: u32 = 10;

/// Weight units that a byte outside the witness counts for.
pub const WITNESS_SCALE_FACTOR: u64 = 4;

/// The largest weight at which Bitcoin nodes still relay a transaction.
pub const MAX_STANDARD_WEIGHT: u64 = 400_000;

/// Bytes that the length prefix `n` takes in Bitcoin's serialization.
pub open spec fn varint_len(n: nat) -> nat {
    if n <= 0xFC {
        1
    } else if n <= 0xFFFF {
        3
    } else if n <= 0xFFFF_FFFF {
        5
    } else {
        9
    }
}

/// Bytes of a serialized output whose script has `spk_size` bytes.
pub open spec fn txout_len(spk_size: nat) -> nat {
    AMOUNT_SIZE as nat + varint_len(spk_size) + spk_size
}

/// Bytes of a serialized input, without its witness, whose script has `script_sig_size` bytes.
pub open spec fn txin_base_len(script_sig_size: nat) -> nat {
    OUTPOINT_SIZE as nat + varint_len(script_sig_size) + script_sig_size + SEQUENCE_SIZE as nat
}

/// Bytes of a serialized transaction, without witnesses, from the counts of its inputs and
/// outputs and the bytes that each kind takes in all.
pub open spec fn tx_base_len(
    n_inputs: nat,
    sum_txin_base_sizes: nat,
    n_outputs: nat,
    sum_txout_sizes: nat,
) -> nat {
    VERSION_SIZE as nat + varint_len(n_inputs) + sum_txin_base_sizes + varint_len(n_outputs)
        + sum_txout_sizes + LOCKTIME_SIZE as nat
}

/// Weight of a bundle transaction with one treasury input (its script empty), the two commitment
/// outputs, and `n_outputs` payouts of `sum_txout_sizes` bytes in all.
pub open spec fn bundle_weight(n_outputs: nat, sum_txout_sizes: nat) -> nat {
    WITNESS_SCALE_FACTOR as nat * tx_base_len(
        1,
        txin_base_len(0),
        n_outputs + 2,
        txout_len(REQUESTS_COMMITMENT_SPK_SIZE as nat) + txout_len(FEE_COMMITMENT_SPK_SIZE as nat)
            + sum_txout_sizes,
    )
}

/// Whether a bundle with such payouts can be built at all: its outputs can be counted in 32 bits
/// and its weight is standard.
pub open spec fn bundle_fits(n_outputs: nat, sum_txout_sizes: nat) -> bool {
    n_outputs + 2 <= u32::MAX && bundle_weight(n_outputs, sum_txout_sizes) <= MAX_STANDARD_WEIGHT
}

/// Calls `bitcoin::VarInt::size`, which gives the bytes of a number in Bitcoin's variable-length
/// encoding: 1 up to `0xFC`, 3 up to `0xFFFF`, 5 up to `0xFFFF_FFFF`, and 9 from there.
#[verifier::external_body]
fn varint_size(n: u64) -> (size: usize)
    ensures
        size == varint_len(n as nat),
{
    bitcoin::VarInt(n).size()
}

/// Size of a single output with a `spk_size`-byte script, or `None` where it exceeds 32 bits.
pub fn txout_size(spk_size: u32) -> (size: Option<u32>)
    ensures
        txout_len(spk_size as nat) <= u32::MAX ==> size == Some(txout_len(spk_size as nat) as u32),
        txout_len(spk_size as nat) > u32::MAX ==> size is None,
{
    match AMOUNT_SIZE.checked_add(varint_size(spk_size as u64) as u32) {
        Some(size) => size.checked_add(spk_size),
        None => None,
    }
}

/// Size of an input, without its witness, with a `script_sig_size`-byte script.
fn txin_base_size(script_sig_size: u32) -> (size: Option<u32>)
    ensures
        txin_base_len(script_sig_size as nat) <= u32::MAX ==> size == Some(
            txin_base_len(script_sig_size as nat) as u32,
        ),
        txin_base_len(script_sig_size as nat) > u32::MAX ==> size is None,
{
    let script_sig_len_size: u32 = varint_size(script_sig_size as u64) as u32;
    match (OUTPOINT_SIZE + script_sig_len_size).checked_add(script_sig_size) {
        Some(size) => size.checked_add(SEQUENCE_SIZE),
        None => None,
    }
}

/// Size of a list of `count` items that take `sum_sizes` bytes, with its length prefix.
fn vector_size(count: u32, sum_sizes: u32) -> (size: Option<u32>)
    ensures
        varint_len(count as nat) + sum_sizes <= u32::MAX ==> size == Some(
            (varint_len(count as nat) + sum_sizes) as u32,
        ),
        varint_len(count as nat) + sum_sizes > u32::MAX ==> size is None,
{
    (varint_size(count as u64) as u32).checked_add(sum_sizes)
}

/// Size of a transaction without witnesses, or `None` where it exceeds 32 bits.
fn tx_base_size(
    n_inputs: u32,
    sum_txin_base_sizes: u32,
    n_outputs: u32,
    sum_txout_sizes: u32,
) -> (size: Option<u32>)
    ensures
        ({
            let len = tx_base_len(
                n_inputs as nat,
                sum_txin_base_sizes as nat,
                n_outputs as nat,
                sum_txout_sizes as nat,
            );
            &&& len <= u32::MAX ==> size == Some(len as u32)
            &&& len > u32::MAX ==> size is None
        }),
{
    let inputs: u32 = match vector_size(n_inputs, sum_txin_base_sizes) {
        Some(size) => size,
        None => {
            return None;
        },
    };
    let outputs: u32 = match vector_size(n_outputs, sum_txout_sizes) {
        Some(size) => size,
        None => {
            return None;
        },
    };
    let with_inputs: u32 = match VERSION_SIZE.checked_add(inputs) {
        Some(size) => size,
        None => {
            return None;
        },
    };
    match with_inputs.checked_add(outputs) {
        Some(size) => size.checked_add(LOCKTIME_SIZE),
        None => None,
    }
}

/// Predicts the weight of a bundle with `n_outputs` payouts summing to `sum_txout_sizes` bytes
/// (not including the two commitment outputs), assuming a single treasury input that is attached
/// later. Returns `None` if the weight would exceed the standard limit.
pub fn predict_weight(n_outputs: u32, sum_txout_sizes: u32) -> (weight: Option<u64>)
    ensures
        bundle_fits(n_outputs as nat, sum_txout_sizes as nat) ==> weight == Some(
            bundle_weight(n_outputs as nat, sum_txout_sizes as nat) as u64,
        ),
        !bundle_fits(n_outputs as nat, sum_txout_sizes as nat) ==> weight is None,
{
    let all_outputs: u32 = match n_outputs.checked_add(2) {
        Some(count) => count,
        None => {
            return None;
        },
    };
    let (requests_txout, fee_txout, txin): (u32, u32, u32) = match (
        txout_size(REQUESTS_COMMITMENT_SPK_SIZE),
        txout_size(FEE_COMMITMENT_SPK_SIZE),
        txin_base_size(0),
    ) {
        (Some(requests_txout), Some(fee_txout), Some(txin)) => (requests_txout, fee_txout, txin),
        _ => {
            return None;
        },
    };
    let all_txouts: u32 = match (requests_txout + fee_txout).checked_add(sum_txout_sizes) {
        Some(size) => size,
        None => {
            return None;
        },
    };
    let base_size: u32 = match tx_base_size(1, txin, all_outputs, all_txouts) {
        Some(size) => size,
        None => {
            return None;
        },
    };
    let weight: u64 = base_size as u64 * WITNESS_SCALE_FACTOR;
    if weight <= MAX_STANDARD_WEIGHT {
        Some(weight)
    } else {
        None
    }
}

/// Sizes and weights in numbers. An output takes eight bytes beside its script and the script's
/// length, which takes one, three, five or nine. A bundle weighs four for each byte: 112 beside the
/// payouts and the number of its outputs. It can be built up to a weight of 400000.
pub proof fn lemma_weight_in_numbers(spk_size: nat, n_outputs: nat, sum_txout_sizes: nat)
    ensures
        spk_size < 0xFD ==> txout_len(spk_size) == spk_size + 9,
        0xFD <= spk_size < 0x1_0000 ==> txout_len(spk_size) == spk_size + 11,
        0x1_0000 <= spk_size < 0x1_0000_0000 ==> txout_len(spk_size) == spk_size + 13,
        0x1_0000_0000 <= spk_size ==> txout_len(spk_size) == spk_size + 17,
        n_outputs + 2 < 0xFD ==> bundle_weight(n_outputs, sum_txout_sizes) == 4 * (113
            + sum_txout_sizes),
        0xFD <= n_outputs + 2 < 0x1_0000 ==> bundle_weight(n_outputs, sum_txout_sizes) == 4 * (115
            + sum_txout_sizes),
        0x1_0000 <= n_outputs + 2 < 0x1_0000_0000 ==> bundle_weight(n_outputs, sum_txout_sizes)
            == 4 * (117 + sum_txout_sizes),
        bundle_fits(n_outputs, sum_txout_sizes) <==> n_outputs + 2 < 0x1_0000_0000
            && bundle_weight(n_outputs, sum_txout_sizes) <= 400_000,
{
}

} // verus!
