use std::collections::HashMap;

use beth::enforcer::error::EnforcerError;
use beth::enforcer::messages::{
    BlockHeaderInfo, BroadcastWithdrawalBundleRequest, GetChainTipRequest, GetChainTipResponse,
    HexText,
};
use beth::enforcer::{EnforcerClient, WithdrawalBundleOutcome, WithdrawalBundleStatus};
use beth::payload::{
    eligible_withdrawals, Bip300301PayloadBuilder, BundleReport, MissingPayloadBehaviour,
};
use beth::withdrawal_bundle::in_flight::InFlightBundles;
use beth::withdrawal_bundle::queue::{
    read_pending_withdrawals, requests_entry_slot, PendingWithdrawal, QueueError,
    REQUEST_COUNT_SLOT,
};
use beth::withdrawal_bundle::selection::select_withdrawal_bundle;
use beth::words::add_slot;

type Words = HashMap<[u8; 32], [u8; 32]>;

fn builder() -> Bip300301PayloadBuilder {
    Bip300301PayloadBuilder::new(EnforcerClient::new("http://enforcer".to_string()), 10, false)
}

fn tip(_: GetChainTipRequest) -> Result<GetChainTipResponse, String> {
    Ok(GetChainTipResponse {
        block_header_info: Some(BlockHeaderInfo {
            block_hash: Some(HexText { hex: Some("5a".repeat(32)) }),
        }),
    })
}

fn one_request() -> (Words, PendingWithdrawal) {
    let request = PendingWithdrawal {
        index: 0,
        requester: [0; 20],
        value_sats: 200,
        main_fee_sats: 3,
        btc_destination: vec![0xAA; 22],
    };
    let mut count = [0u8; 32];
    count[31] = 1;
    let mut value = [0u8; 32];
    value[31] = 200;
    let mut fee = [0u8; 32];
    fee[31] = 3;
    let mut head = [0u8; 32];
    head[..22].copy_from_slice(&[0xAA; 22]);
    head[31] = 44;
    let base = requests_entry_slot(0);
    let mut words = Words::new();
    words.insert(REQUEST_COUNT_SLOT, count);
    words.insert(add_slot(base, 1), value);
    words.insert(add_slot(base, 2), fee);
    words.insert(add_slot(base, 3), head);
    (words, request)
}

fn reader(words: Words) -> impl Fn([u8; 20], [u8; 32]) -> Result<Option<[u8; 32]>, &'static str> {
    move |_, slot| Ok(words.get(&slot).copied())
}

#[test]
fn bundle_is_broadcast_with_the_next_block() {
    let (words, request) = one_request();
    let bundle = select_withdrawal_bundle(&[request], 8).unwrap();
    let mut in_flight = InFlightBundles::default();
    let context = builder()
        .next_block_context(
            &mut in_flight,
            tip,
            |parent| {
                assert_eq!(parent, [0xCD; 32]);
                Ok(reader(words))
            },
            |sent: BroadcastWithdrawalBundleRequest| {
                assert_eq!(sent.sidechain_id, Some(10));
                assert_eq!(sent.transaction, Some(bundle.tx.serialize()));
                Ok(())
            },
            [0xCD; 32],
            7,
        )
        .unwrap();
    assert_eq!(context.extra_data, [0x5A; 32]);
    assert_eq!(context.withdrawals, Some(Vec::new()));
    assert_eq!(
        context.bundle,
        BundleReport::Broadcast { m6id: bundle.m6id(), request_indices: vec![0], outputs: 3 }
    );
    assert!(!in_flight.is_eligible(0));
}

#[test]
fn block_is_built_though_the_broadcast_fails() {
    let (words, request) = one_request();
    let bundle = select_withdrawal_bundle(&[request], u32::MAX).unwrap();
    let mut in_flight = InFlightBundles::default();
    let report = builder().broadcast_next_bundle(
        &mut in_flight,
        &reader(words),
        |_: BroadcastWithdrawalBundleRequest| Err("no wallet".to_string()),
        u64::MAX,
    );
    assert_eq!(
        report,
        BundleReport::BroadcastFailed {
            m6id: bundle.m6id(),
            error: EnforcerError::Grpc("no wallet".to_string()),
        }
    );
    assert!(in_flight.is_eligible(0));
}

#[test]
fn second_call_on_the_same_queue_finds_nothing_to_pay() {
    let (words, request) = one_request();
    let storage = reader(words);
    let mut in_flight = InFlightBundles::default();
    let failed = builder().broadcast_next_bundle(
        &mut in_flight,
        &storage,
        |_: BroadcastWithdrawalBundleRequest| Err("no wallet".to_string()),
        7,
    );
    assert!(matches!(failed, BundleReport::BroadcastFailed { .. }));

    // What could not be broadcast is tried again.
    let sent = builder().broadcast_next_bundle(
        &mut in_flight,
        &storage,
        |_: BroadcastWithdrawalBundleRequest| Ok(()),
        7,
    );
    let m6id = select_withdrawal_bundle(&[request], 8).unwrap().m6id();
    assert_eq!(sent, BundleReport::Broadcast { m6id, request_indices: vec![0], outputs: 3 });

    let quiet = |_: BroadcastWithdrawalBundleRequest| panic!("nothing is to be broadcast");
    let again = builder().broadcast_next_bundle(&mut in_flight, &storage, quiet, 7);
    assert_eq!(again, BundleReport::NothingToPay);
    let next_block = builder().broadcast_next_bundle(&mut in_flight, &storage, quiet, 8);
    assert_eq!(next_block, BundleReport::NothingToPay);

    let outcome = WithdrawalBundleOutcome { m6id, status: WithdrawalBundleStatus::Failed };
    assert_eq!(in_flight.resolve(&[outcome]), vec![0]);
    let after_outcome = builder().broadcast_next_bundle(&mut in_flight, &storage, quiet, 8);
    assert_eq!(after_outcome, BundleReport::NothingToPay);
}

#[test]
fn queue_that_does_not_change_is_read_alike_every_time() {
    let (words, request) = one_request();
    let storage = reader(words);
    assert_eq!(read_pending_withdrawals(&storage), Ok(vec![request.clone()]));
    assert_eq!(read_pending_withdrawals(&storage), Ok(vec![request]));
}

#[test]
fn requests_in_flight_are_passed_over() {
    let request = |index: u64| PendingWithdrawal {
        index,
        requester: [0; 20],
        value_sats: 200,
        main_fee_sats: 3,
        btc_destination: vec![0xAA; 22],
    };
    let pending = [request(0), request(1), request(2), request(3)];
    let mut in_flight = InFlightBundles::default();
    assert_eq!(eligible_withdrawals(&pending, &in_flight), pending);
    in_flight.record_submitted([1; 32], vec![0, 2]);
    assert_eq!(eligible_withdrawals(&pending, &in_flight), [request(1), request(3)]);
    let outcome =
        WithdrawalBundleOutcome { m6id: [1; 32], status: WithdrawalBundleStatus::Succeeded };
    in_flight.resolve(&[outcome]);
    assert_eq!(eligible_withdrawals(&pending, &in_flight), [request(1), request(3)]);
}

#[test]
fn destination_that_cannot_be_read_makes_the_queue_unreadable() {
    let (mut words, _) = one_request();
    let mut head = [0u8; 32];
    head[31] = 66;
    words.insert(add_slot(requests_entry_slot(0), 3), head);
    let quiet = |_: BroadcastWithdrawalBundleRequest| panic!("nothing is to be broadcast");
    let report = builder().broadcast_next_bundle(
        &mut InFlightBundles::default(),
        &reader(words),
        quiet,
        7,
    );
    assert_eq!(report, BundleReport::QueueUnreadable(QueueError::InvalidBytesHead));
}

#[test]
fn block_is_built_though_there_is_nothing_to_broadcast() {
    let quiet = |_: BroadcastWithdrawalBundleRequest| panic!("nothing is to be broadcast");
    let mut in_flight = InFlightBundles::default();
    let context = builder()
        .next_block_context(
            &mut in_flight,
            tip,
            |_| Ok(reader(Words::new())),
            quiet,
            [0; 32],
            1,
        )
        .unwrap();
    assert_eq!(context.bundle, BundleReport::NothingToPay);
    assert_eq!(context.extra_data, [0x5A; 32]);

    let unreadable = |_: [u8; 20], _: [u8; 32]| Err::<Option<[u8; 32]>, _>("unreadable");
    let context = builder()
        .next_block_context(&mut in_flight, tip, |_| Ok(unreadable), quiet, [0; 32], 1)
        .unwrap();
    assert_eq!(context.bundle, BundleReport::QueueUnreadable(QueueError::Storage("unreadable")));

    let unopened = |_: [u8; 32]| {
        if true {
            Err("no state")
        } else {
            Ok(reader(Words::new()))
        }
    };
    let context = builder()
        .next_block_context(&mut in_flight, tip, unopened, quiet, [0; 32], 1)
        .unwrap();
    assert_eq!(context.bundle, BundleReport::StateUnavailable("no state"));
}

#[test]
fn no_block_is_built_without_a_tip() {
    let context = builder().next_block_context(
        &mut InFlightBundles::default(),
        |_: GetChainTipRequest| Err("down".to_string()),
        |_| -> Result<fn([u8; 20], [u8; 32]) -> Result<Option<[u8; 32]>, &'static str>, _> {
            panic!("nothing is to be loaded")
        },
        |_: BroadcastWithdrawalBundleRequest| panic!("nothing is to be broadcast"),
        [0; 32],
        1,
    );
    assert_eq!(context.err(), Some(EnforcerError::Grpc("down".to_string())));
}

#[test]
fn missing_payload_is_raced_unless_awaited() {
    let mut builder = builder();
    assert_eq!(builder.on_missing_payload(), MissingPayloadBehaviour::RaceEmptyPayload);
    builder.await_payload_on_missing = true;
    assert_eq!(builder.on_missing_payload(), MissingPayloadBehaviour::AwaitInProgress);
}
