use std::collections::HashMap;

use alloy_primitives::{keccak256, B256, U256};
use beth::enforcer::{WithdrawalBundleOutcome, WithdrawalBundleStatus};
use beth::withdrawal_bundle::in_flight::InFlightBundles;
use beth::withdrawal_bundle::m6::{
    build_m6_transaction, requests_commitment, requests_preimage, Transaction, TxIn, TxOut,
};
use beth::withdrawal_bundle::queue::{
    decode_bytes_head, read_dynamic_bytes, read_long_bytes, read_pending_withdrawals, read_request,
    requests_entry_preimage, requests_entry_slot, word_to_address, PendingWithdrawal, QueueError,
    REQUEST_COUNT_SLOT, WITHDRAWAL_REQUEST_QUEUE_ADDRESS,
};
use beth::withdrawal_bundle::selection::{select_payouts, select_withdrawal_bundle};
use beth::withdrawal_bundle::weight::{
    predict_weight, txout_size, AMOUNT_SIZE, LOCKTIME_SIZE, MAX_STANDARD_WEIGHT,
    WITNESS_SCALE_FACTOR,
};
use beth::words::add_slot;
use bitcoin::hashes::Hash as _;

fn request(
    index: u64,
    main_fee_sats: u64,
    value_sats: u64,
    destination: &[u8],
) -> PendingWithdrawal {
    PendingWithdrawal {
        index,
        requester: [0; 20],
        value_sats,
        main_fee_sats,
        btc_destination: destination.to_vec(),
    }
}

#[test]
fn requests_entry_slot_places_index_and_mapping_slot_correctly() {
    // keccak256(uint256(0) ++ uint256(1)), per Solidity's `mapping(uint256 => T)` layout.
    let mut preimage = [0u8; 64];
    preimage[63] = 1;
    assert_eq!(requests_entry_slot(0), keccak256(preimage).0);

    // keccak256(uint256(300) ++ uint256(1))
    let mut preimage = [0u8; 64];
    preimage[30..32].copy_from_slice(&300u16.to_be_bytes());
    preimage[63] = 1;
    assert_eq!(requests_entry_slot(300), keccak256(preimage).0);

    // Distinct indices must not collide.
    assert_ne!(requests_entry_slot(0), requests_entry_slot(1));
}

#[test]
fn add_slot_is_plain_slot_arithmetic() {
    assert_eq!(add_slot([0; 32], 0), [0; 32]);
    assert_eq!(add_slot([0; 32], 1), B256::from(U256::from(1u64)).0);
    let base = keccak256([1u8]);
    assert_eq!(
        add_slot(base.0, 2),
        B256::from(U256::from_be_bytes(base.0) + U256::from(2u64)).0
    );
}

#[test]
fn decode_bytes_head_short_form_round_trips() {
    for data in [b"".as_slice(), b"hello".as_slice(), &[0xABu8; 31]] {
        let mut word_bytes = [0u8; 32];
        word_bytes[..data.len()].copy_from_slice(data);
        word_bytes[31] = (data.len() as u8) * 2;
        assert_eq!(decode_bytes_head(word_bytes), Ok(data.to_vec()));
    }
}

#[test]
fn decode_bytes_head_long_form_reports_length() {
    for length in [32usize, 100, 1000] {
        let word = U256::from(length as u64) * U256::from(2u64) + U256::from(1u64);
        assert_eq!(decode_bytes_head(word.to_be_bytes()), Err(length));
    }
}

#[test]
fn decode_bytes_head_length_31_is_short_form_boundary() {
    // 31 is the largest length still encoded inline (length*2 = 62, even => short form).
    let mut word_bytes = [0xCDu8; 32];
    word_bytes[31] = 62;
    assert_eq!(decode_bytes_head(word_bytes), Ok(vec![0xCD; 31]));
}

#[test]
fn select_withdrawal_bundle_returns_none_when_empty() {
    assert!(select_withdrawal_bundle(&[], 1).is_none());
}

#[test]
fn select_withdrawal_bundle_aggregates_by_destination() {
    let dest_a = vec![0xAA; 22];
    let dest_b = vec![0xBB; 22];
    let pending = vec![
        request(0, 100, 1_000, &dest_a),
        request(1, 50, 2_000, &dest_a),
        request(2, 10, 500, &dest_b),
    ];
    let bundle = select_withdrawal_bundle(&pending, 1).expect("some requests fit");

    // 2 commitment outputs + 2 aggregated destinations.
    assert_eq!(bundle.tx.output.len(), 4);
    assert_eq!(bundle.request_indices, vec![0, 1, 2]);

    // Higher aggregated fee (dest_a: 100+50=150) sorts before dest_b (10), and comes right
    // after the two commitment outputs.
    let dest_a_txout = &bundle.tx.output[2];
    assert_eq!(dest_a_txout.value_sats, 3_000);
    assert_eq!(dest_a_txout.script_pubkey.as_slice(), dest_a.as_slice());

    let dest_b_txout = &bundle.tx.output[3];
    assert_eq!(dest_b_txout.value_sats, 500);
    assert_eq!(dest_b_txout.script_pubkey.as_slice(), dest_b.as_slice());

    // No inputs: the bundle is blinded until the enforcer attaches the CTIP input.
    assert!(bundle.tx.input.is_empty());
}

#[test]
fn select_withdrawal_bundle_m6id_is_deterministic_and_sensitive_to_height() {
    let pending = vec![request(0, 1, 100, &[0xAA; 22])];
    let a = select_withdrawal_bundle(&pending, 1).unwrap();
    let b = select_withdrawal_bundle(&pending, 1).unwrap();
    assert_eq!(a.m6id(), b.m6id(), "same inputs, same height => same m6id");

    let c = select_withdrawal_bundle(&pending, 2).unwrap();
    assert_ne!(a.m6id(), c.m6id(), "different height => different m6id");
}

#[test]
fn select_withdrawal_bundle_stops_before_exceeding_standard_weight() {
    // Many distinct 34-byte (P2WSH-sized) destinations: far more than fit in one
    // standard-weight bundle.
    let pending: Vec<_> = (0..15_000u64)
        .map(|i| {
            let mut destination = vec![0u8; 34];
            destination[..8].copy_from_slice(&i.to_be_bytes());
            request(i, 1, 1_000, &destination)
        })
        .collect();
    let bundle = select_withdrawal_bundle(&pending, 1).expect("at least some requests fit");

    let n_payout_outputs = bundle.tx.output.len() - 2;
    assert!(n_payout_outputs > 0, "some requests should have been included");
    assert!(n_payout_outputs < pending.len(), "not all 15,000 requests should fit");
    assert_eq!(bundle.request_indices.len(), n_payout_outputs);
    assert!(
        predict_weight(n_payout_outputs as u32, 0).is_some() || n_payout_outputs == 0,
        "sanity: selected count should itself be weight-feasible",
    );
}

#[test]
fn txout_size_matches_amount_plus_varint_plus_script() {
    // 8-byte amount + 1-byte varint length prefix (for spk_size < 0xFD) + script bytes.
    assert_eq!(txout_size(0), Some(9));
    assert_eq!(txout_size(34), Some(43));
    assert_eq!(txout_size(252), Some(261));
    // 0xFD..=0xFFFF uses a 3-byte varint prefix.
    assert_eq!(txout_size(253), Some(264));
}

#[test]
fn predict_weight_rejects_past_standard_weight_limit() {
    assert!(predict_weight(1, 43).is_some());
    // A huge number of outputs must eventually exceed MAX_STANDARD_WEIGHT.
    assert!(predict_weight(u32::MAX / 100, u32::MAX / 2).is_none());
}

fn txid(byte: u8) -> [u8; 32] {
    [byte; 32]
}

#[test]
fn in_flight_bundles_starts_with_everything_eligible() {
    let in_flight = InFlightBundles::default();
    assert!(in_flight.is_eligible(0));
    assert!(in_flight.is_eligible(42));
}

#[test]
fn in_flight_bundles_excludes_submitted_indices() {
    let mut in_flight = InFlightBundles::default();
    in_flight.record_submitted(txid(1), vec![0, 1, 2]);
    assert!(!in_flight.is_eligible(0));
    assert!(!in_flight.is_eligible(1));
    assert!(!in_flight.is_eligible(2));
    assert!(in_flight.is_eligible(3), "index in a different bundle stays eligible");
}

#[test]
fn in_flight_bundles_succeeded_finalizes_without_refund() {
    let mut in_flight = InFlightBundles::default();
    in_flight.record_submitted(txid(1), vec![0, 1]);

    let refunds = in_flight.resolve(&[WithdrawalBundleOutcome {
        m6id: txid(1),
        status: WithdrawalBundleStatus::Succeeded,
    }]);

    assert!(refunds.is_empty());
    // Permanently excluded, not just "no longer pending".
    assert!(!in_flight.is_eligible(0));
    assert!(!in_flight.is_eligible(1));
}

#[test]
fn in_flight_bundles_failed_finalizes_and_refunds() {
    let mut in_flight = InFlightBundles::default();
    in_flight.record_submitted(txid(1), vec![0, 1]);

    let mut refunds = in_flight.resolve(&[WithdrawalBundleOutcome {
        m6id: txid(1),
        status: WithdrawalBundleStatus::Failed,
    }]);
    refunds.sort_unstable();

    assert_eq!(refunds, vec![0, 1]);
    // Refunded requests must never be selected again either: otherwise a later bundle
    // could pay them out on Bitcoin *and* they'd have already been refunded on L2.
    assert!(!in_flight.is_eligible(0));
    assert!(!in_flight.is_eligible(1));
}

#[test]
fn in_flight_bundles_submitted_status_is_a_no_op() {
    let mut in_flight = InFlightBundles::default();
    in_flight.record_submitted(txid(1), vec![0]);

    let refunds = in_flight.resolve(&[WithdrawalBundleOutcome {
        m6id: txid(1),
        status: WithdrawalBundleStatus::Submitted,
    }]);

    assert!(refunds.is_empty());
    assert!(!in_flight.is_eligible(0), "still pending, not yet resolved");
}

#[test]
fn in_flight_bundles_ignores_outcomes_for_untracked_bundles() {
    let mut in_flight = InFlightBundles::default();
    // No `record_submitted` call: e.g. another producer's bundle, or one from before a restart.
    let refunds = in_flight.resolve(&[WithdrawalBundleOutcome {
        m6id: txid(9),
        status: WithdrawalBundleStatus::Failed,
    }]);
    assert!(refunds.is_empty());
}

#[test]
fn repeated_outcomes_refund_once_and_nothing_is_freed() {
    let mut in_flight = InFlightBundles::default();
    in_flight.record_submitted(txid(1), vec![4, 5]);
    in_flight.record_submitted(txid(2), vec![6]);
    let failed = WithdrawalBundleOutcome { m6id: txid(1), status: WithdrawalBundleStatus::Failed };
    assert_eq!(in_flight.resolve(&[failed, failed]), vec![4, 5]);
    assert!(in_flight.resolve(&[failed]).is_empty());
    in_flight.record_submitted(txid(1), vec![7]);
    for index in [4, 5, 6, 7] {
        assert!(!in_flight.is_eligible(index));
    }
}

#[test]
fn outcomes_change_no_eligibility_and_count_once() {
    let mut in_flight = InFlightBundles::default();
    in_flight.record_submitted(txid(1), vec![4, 5]);
    in_flight.record_submitted(txid(2), vec![6]);
    in_flight.record_submitted(txid(3), vec![8]);
    let outcomes = [
        WithdrawalBundleOutcome { m6id: txid(1), status: WithdrawalBundleStatus::Failed },
        WithdrawalBundleOutcome { m6id: txid(2), status: WithdrawalBundleStatus::Succeeded },
        WithdrawalBundleOutcome { m6id: txid(3), status: WithdrawalBundleStatus::Submitted },
        WithdrawalBundleOutcome { m6id: txid(9), status: WithdrawalBundleStatus::Failed },
    ];
    let before: Vec<bool> = (0..10).map(|index| in_flight.is_eligible(index)).collect();
    assert_eq!(in_flight.resolve(&outcomes), vec![4, 5]);
    let after: Vec<bool> = (0..10).map(|index| in_flight.is_eligible(index)).collect();
    assert_eq!(after, before);
    assert!(in_flight.resolve(&outcomes).is_empty());
    let again: Vec<bool> = (0..10).map(|index| in_flight.is_eligible(index)).collect();
    assert_eq!(again, before);
}

#[test]
fn resubmitted_bundle_replaces_its_indices() {
    let mut in_flight = InFlightBundles::default();
    in_flight.record_submitted(txid(1), vec![1]);
    in_flight.record_submitted(txid(1), vec![2]);
    assert!(in_flight.is_eligible(1));
    assert!(!in_flight.is_eligible(2));
}

#[test]
fn sizes_agree_with_the_bitcoin_crate() {
    assert_eq!(AMOUNT_SIZE as usize, bitcoin::Amount::SIZE);
    assert_eq!(LOCKTIME_SIZE as usize, bitcoin::absolute::LockTime::SIZE);
    assert_eq!(WITNESS_SCALE_FACTOR, bitcoin::Weight::WITNESS_SCALE_FACTOR);
    assert_eq!(MAX_STANDARD_WEIGHT, bitcoin::Transaction::MAX_STANDARD_WEIGHT.to_wu());
    // The length prefix grows at 0xFD, 0x1_0000.
    assert_eq!(txout_size(0xFFFF), Some(8 + 3 + 0xFFFF));
    assert_eq!(txout_size(0x1_0000), Some(8 + 5 + 0x1_0000));
    assert_eq!(txout_size(u32::MAX - 13), Some(u32::MAX));
    assert_eq!(txout_size(u32::MAX - 12), None);
}

#[test]
fn predicted_weight_is_exact_up_to_the_limit() {
    // 4 * (version 4 + inputs 1 + 41 + outputs 1 + 19 + 43 + 43 + lock time 4)
    assert_eq!(predict_weight(1, 43), Some(624));
    assert_eq!(predict_weight(1, 100_000 - 113), Some(400_000));
    assert_eq!(predict_weight(1, 100_000 - 112), None);
    assert_eq!(predict_weight(u32::MAX - 1, 0), None);
    assert_eq!(predict_weight(u32::MAX - 2, 0), Some(4 * (113 + 4)));
}

fn to_bitcoin(tx: &Transaction) -> bitcoin::Transaction {
    bitcoin::Transaction {
        version: bitcoin::transaction::Version(tx.version),
        lock_time: bitcoin::absolute::LockTime::from_consensus(tx.lock_time),
        input: tx
            .input
            .iter()
            .map(|input| bitcoin::TxIn {
                previous_output: bitcoin::OutPoint::new(
                    bitcoin::Txid::from_byte_array(input.previous_txid),
                    input.previous_vout,
                ),
                script_sig: bitcoin::ScriptBuf::from_bytes(input.script_sig.clone()),
                sequence: bitcoin::Sequence(input.sequence),
                witness: bitcoin::Witness::from_slice(&input.witness),
            })
            .collect(),
        output: tx
            .output
            .iter()
            .map(|output| bitcoin::TxOut {
                value: bitcoin::Amount::from_sat(output.value_sats),
                script_pubkey: bitcoin::ScriptBuf::from_bytes(output.script_pubkey.clone()),
            })
            .collect(),
    }
}

#[test]
fn full_bundle_has_the_heaviest_standard_transaction() {
    let pending: Vec<_> = (0..15_000u64)
        .map(|i| {
            let mut destination = vec![0u8; 34];
            destination[..8].copy_from_slice(&i.to_be_bytes());
            request(i, i, 1_000, &destination)
        })
        .collect();
    let bundle = select_withdrawal_bundle(&pending, 1).unwrap();
    let mut tx = to_bitcoin(&bundle.tx);
    tx.input.push(bitcoin::TxIn::default());
    let base_weight = 4 * tx.base_size() as u64;
    let payouts = bundle.tx.output.len() as u32 - 2;
    assert_eq!(predict_weight(payouts, payouts * 43), Some(base_weight));
    assert!(base_weight <= MAX_STANDARD_WEIGHT);
    assert_eq!(predict_weight(payouts + 1, (payouts + 1) * 43), None);
    // The highest fees are the ones that are paid.
    let lowest = 15_000 - payouts as u64;
    let expected: Vec<u64> = (lowest..15_000).collect();
    assert_eq!(bundle.request_indices, expected);
}

#[test]
fn transaction_ids_and_bytes_are_those_of_the_bitcoin_crate() {
    let mut bundle =
        select_withdrawal_bundle(&[request(3, 7, 100, &[0xAA; 22])], 0x0102_0304).unwrap();
    let tx = to_bitcoin(&bundle.tx);
    assert_eq!(bundle.m6id(), tx.compute_txid().to_byte_array());
    assert_eq!(bundle.tx.serialize(), bitcoin::consensus::encode::serialize(&tx));

    bundle.tx.input.push(TxIn {
        previous_txid: [0x5A; 32],
        previous_vout: 3,
        script_sig: vec![1, 2, 3],
        sequence: 0xFFFF_FFFE,
        witness: vec![vec![9, 9], Vec::new()],
    });
    let tx = to_bitcoin(&bundle.tx);
    assert_eq!(bundle.m6id(), tx.compute_txid().to_byte_array());
    let bytes = bundle.tx.serialize();
    assert_eq!(bytes, bitcoin::consensus::encode::serialize(&tx));
    let decoded: bitcoin::Transaction = bitcoin::consensus::encode::deserialize(&bytes).unwrap();
    assert_eq!(decoded, tx);
}

#[test]
fn m6_transaction_begins_with_its_commitments() {
    let indices = [1u64, 0x0203];
    let preimage = requests_preimage(&indices, 0x0A0B_0C0D);
    assert_eq!(
        preimage,
        vec![0, 0, 0, 0, 0, 0, 0, 1, 0, 0, 0, 0, 0, 0, 2, 3, 0x0A, 0x0B, 0x0C, 0x0D]
    );
    let digest = requests_commitment(&indices, 0x0A0B_0C0D);
    assert_eq!(digest, keccak256(&preimage).0);
    assert_ne!(digest, requests_commitment(&indices, 0x0A0B_0C0E));
    assert_ne!(digest, requests_commitment(&indices[..1], 0x0A0B_0C0D));

    let payout = TxOut { value_sats: 5, script_pubkey: vec![1] };
    let tx = build_m6_transaction(0x0102, digest, vec![payout]);
    assert_eq!((tx.version, tx.lock_time, tx.input.len()), (2, 0, 0));
    assert_eq!(tx.output[0].value_sats, 0);
    assert_eq!(tx.output[0].script_pubkey, vec![0x6a, 8, 0, 0, 0, 0, 0, 0, 1, 2]);
    assert_eq!(tx.output[1].value_sats, 0);
    assert_eq!(tx.output[1].script_pubkey[..2], [0x6a, 32]);
    assert_eq!(tx.output[1].script_pubkey[2..], digest);
    assert_eq!((tx.output[2].value_sats, tx.output[2].script_pubkey.clone()), (5, vec![1]));
}

#[test]
fn selection_does_not_depend_on_the_order_of_requests() {
    let mut pending = vec![
        request(4, 5, 10, &[1]),
        request(2, 5, 10, &[2]),
        request(9, 5, 11, &[0]),
        request(1, 6, 1, &[3, 3]),
        request(7, 0, 4, &[0]),
        request(3, 5, 10, &[1, 0]),
    ];
    let a = select_withdrawal_bundle(&pending, 8).unwrap();
    pending.reverse();
    pending.swap(0, 3);
    let b = select_withdrawal_bundle(&pending, 8).unwrap();
    assert_eq!(a.m6id(), b.m6id());
    assert_eq!(a.request_indices, vec![1, 2, 3, 4, 7, 9]);
    assert_eq!(a.request_indices, b.request_indices);
    // By fee, then by value, then by destination, each descending.
    let order: Vec<&[u8]> = a.tx.output[2..].iter().map(|o| o.script_pubkey.as_slice()).collect();
    assert_eq!(order, vec![&[3u8, 3][..], &[0], &[2], &[1, 0], &[1]]);
}

#[test]
fn selected_amounts_add_up_and_stop_at_the_largest_number() {
    let pending =
        [request(0, 1, 2, &[1]), request(1, 10, 20, &[2]), request(2, 100, 200, &[1])];
    let selection = select_payouts(&pending).unwrap();
    assert_eq!(selection.total_main_fee_sats, 111);
    let paid: u64 = selection.outputs.iter().map(|output| output.value_sats).sum();
    assert_eq!(paid, 222);

    let large = [request(0, u64::MAX, u64::MAX, &[1]), request(1, 1, 1, &[1])];
    let selection = select_payouts(&large).unwrap();
    assert_eq!(selection.total_main_fee_sats, u64::MAX);
    assert_eq!(selection.outputs[0].value_sats, u64::MAX);
    assert!(select_payouts(&[]).is_none());
}

#[test]
fn nothing_is_selected_when_the_best_destination_does_not_fit() {
    let pending = [request(0, 9, 1, &[7; 100_000]), request(1, 1, 1, &[1])];
    assert!(select_withdrawal_bundle(&pending, 1).is_none());
    let reversed = [request(0, 1, 1, &[7; 100_000]), request(1, 9, 1, &[1])];
    let bundle = select_withdrawal_bundle(&reversed, 1).unwrap();
    assert_eq!(bundle.request_indices, vec![1]);
}

struct Storage {
    words: HashMap<[u8; 32], [u8; 32]>,
    unreadable: Option<[u8; 32]>,
}

impl Storage {
    fn new() -> Self {
        Storage { words: HashMap::new(), unreadable: None }
    }

    fn store(&mut self, slot: [u8; 32], value: U256) {
        self.words.insert(slot, value.to_be_bytes());
    }

    fn store_bytes(&mut self, slot: [u8; 32], data: &[u8]) {
        if data.len() <= 31 {
            let mut head = [0u8; 32];
            head[..data.len()].copy_from_slice(data);
            head[31] = 2 * data.len() as u8;
            self.words.insert(slot, head);
        } else {
            self.store(slot, U256::from(2 * data.len() + 1));
            let first = U256::from_be_bytes(keccak256(slot).0);
            for (i, chunk) in data.chunks(32).enumerate() {
                let mut word = [0u8; 32];
                word[..chunk.len()].copy_from_slice(chunk);
                self.words.insert((first + U256::from(i)).to_be_bytes(), word);
            }
        }
    }

    fn store_request(&mut self, request: &PendingWithdrawal) {
        let base = U256::from_be_bytes(requests_entry_slot(request.index));
        let slot = |offset: u64| (base + U256::from(offset)).to_be_bytes();
        let mut requester = [0u8; 32];
        requester[12..].copy_from_slice(&request.requester);
        self.words.insert(slot(0), requester);
        self.store(slot(1), U256::from(request.value_sats));
        self.store(slot(2), U256::from(request.main_fee_sats));
        self.store_bytes(slot(3), &request.btc_destination);
    }

    fn read(&self, account: [u8; 20], slot: [u8; 32]) -> Result<Option<[u8; 32]>, &'static str> {
        assert_eq!(account, WITHDRAWAL_REQUEST_QUEUE_ADDRESS);
        if self.unreadable == Some(slot) {
            return Err("unreadable");
        }
        Ok(self.words.get(&slot).copied())
    }
}

fn stored_queue() -> (Storage, Vec<PendingWithdrawal>) {
    let mut requests = vec![
        request(0, 1, 2, &[]),
        request(1, u64::MAX, 3, &[0xAB; 31]),
        request(2, 5, u64::MAX, &[0xCD; 32]),
        request(3, 7, 8, &(0..100).collect::<Vec<u8>>()),
    ];
    for request in &mut requests {
        request.requester = [0x40 + request.index as u8; 20];
    }
    let mut storage = Storage::new();
    storage.store(REQUEST_COUNT_SLOT, U256::from(requests.len()));
    for request in &requests {
        storage.store_request(request);
    }
    (storage, requests)
}

fn same(a: &PendingWithdrawal, b: &PendingWithdrawal) -> bool {
    a.index == b.index
        && a.requester == b.requester
        && a.value_sats == b.value_sats
        && a.main_fee_sats == b.main_fee_sats
        && a.btc_destination == b.btc_destination
}

#[test]
fn stored_queue_is_read_back() {
    let (storage, requests) = stored_queue();
    let read = read_pending_withdrawals(&|account, slot| storage.read(account, slot)).unwrap();
    assert_eq!(read.len(), requests.len());
    for (a, b) in read.iter().zip(&requests) {
        assert!(same(a, b));
    }
    let empty = Storage::new();
    let read = read_pending_withdrawals(&|account, slot| empty.read(account, slot)).unwrap();
    assert!(read.is_empty());
}

#[test]
fn first_unreadable_slot_is_reported() {
    let (mut storage, _) = stored_queue();
    let first = U256::from_be_bytes(requests_entry_slot(3));
    let data = U256::from_be_bytes(
        keccak256((first + U256::from(3)).to_be_bytes::<32>()).0,
    );
    let slots = [
        U256::ZERO,
        first,
        first + U256::from(1),
        first + U256::from(2),
        first + U256::from(3),
        data + U256::from(3),
    ];
    for slot in slots {
        storage.unreadable = Some(slot.to_be_bytes());
        let read = read_pending_withdrawals(&|account, slot| storage.read(account, slot));
        assert_eq!(read.err(), Some(QueueError::Storage("unreadable")));
    }
    storage.unreadable = Some((data + U256::from(4)).to_be_bytes());
    assert!(read_pending_withdrawals(&|account, slot| storage.read(account, slot)).is_ok());
}

#[test]
fn impossible_bytes_head_is_reported() {
    let (mut storage, _) = stored_queue();
    let slot = U256::from_be_bytes(requests_entry_slot(1)) + U256::from(3);
    storage.store(slot.to_be_bytes(), U256::from(66));
    let read = read_pending_withdrawals(&|account, slot| storage.read(account, slot));
    assert_eq!(read.err(), Some(QueueError::InvalidBytesHead));
    storage.store(slot.to_be_bytes(), U256::from(64));
    let read = read_pending_withdrawals(&|account, slot| storage.read(account, slot)).unwrap();
    assert_eq!(read[1].btc_destination.len(), 32);
}

#[test]
fn oversized_numbers_are_read_as_the_largest() {
    let mut storage = Storage::new();
    let base = [0x77; 32];
    storage.store(add_slot(base, 1), U256::MAX);
    storage.store(add_slot(base, 2), U256::from(u64::MAX) + U256::from(1));
    let read = |account, slot| storage.read(account, slot);
    let request = read_request(&read, 9, base).unwrap();
    assert_eq!((request.index, request.value_sats, request.main_fee_sats), (9, u64::MAX, u64::MAX));
    assert_eq!(request.requester, [0; 20]);
    assert!(request.btc_destination.is_empty());
}

#[test]
fn long_bytes_are_cut_at_their_length() {
    let mut storage = Storage::new();
    let data: Vec<u8> = (0..70).collect();
    storage.store_bytes([3; 32], &data);
    let read = |account, slot| storage.read(account, slot);
    assert_eq!(read_dynamic_bytes(&read, [3; 32]), Ok(data.clone()));
    let first = keccak256([3u8; 32]).0;
    assert_eq!(read_long_bytes(&read, first, 70), Ok(data.clone()));
    assert_eq!(read_long_bytes(&read, first, 33), Ok(data[..33].to_vec()));
    assert_eq!(read_long_bytes(&read, first, 0), Ok(Vec::new()));
}

#[test]
fn entry_preimage_is_key_and_mapping_slot() {
    let preimage = requests_entry_preimage(0x0102);
    let mut expected = vec![0u8; 64];
    expected[30] = 1;
    expected[31] = 2;
    expected[63] = 1;
    assert_eq!(preimage, expected);
    assert_ne!(preimage, requests_entry_preimage(0x0103));
}

#[test]
fn address_is_in_the_low_order_bytes() {
    let mut word = [0xFFu8; 32];
    word[12..].copy_from_slice(&[0x12; 20]);
    assert_eq!(word_to_address(&word), [0x12; 20]);
}

#[test]
fn queue_has_its_predeploy_address() {
    let expected: alloy_primitives::Address =
        "0x000000000000000000000000000000000000B300".parse().unwrap();
    assert_eq!(alloy_primitives::Address::from(WITHDRAWAL_REQUEST_QUEUE_ADDRESS), expected);
}
