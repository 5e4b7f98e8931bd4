use beth::enforcer::error::EnforcerError;
use beth::enforcer::events::{read_deposits, read_outcomes};
use beth::enforcer::messages::{
    broadcast_request, commitment_request, peg_data_request, read_commitment, read_tip,
    BlockHeaderInfo, BlockInfo, BmmCommitment, BroadcastWithdrawalBundleRequest, CommitmentResult,
    DepositEvent, DepositOutput, GetBmmHStarCommitmentRequest, GetBmmHStarCommitmentResponse,
    GetChainTipRequest, GetChainTipResponse, GetTwoWayPegDataRequest, GetTwoWayPegDataResponse,
    HexText, PegBlock, PegEvent, PegEventKind, WithdrawalBundleEvent, WithdrawalBundleProgress,
};
use beth::enforcer::parse::{parse_address, parse_hex32, parse_txid_consensus, strip_0x};
use beth::enforcer::{Deposit, EnforcerClient, WithdrawalBundleOutcome, WithdrawalBundleStatus};
use beth::withdrawal_bundle::m6::Transaction;

fn client() -> EnforcerClient {
    EnforcerClient::new("http://enforcer".to_string())
}

fn text(hex: &str) -> Option<HexText> {
    Some(HexText { hex: Some(hex.to_string()) })
}

fn deposit_event(output: Option<DepositOutput>) -> PegEvent {
    PegEvent { event: Some(PegEventKind::Deposit(DepositEvent { output })) }
}

fn deposit_of(value_sats: u64, address: &str) -> PegEvent {
    deposit_event(Some(DepositOutput { value_sats: Some(value_sats), address: text(address) }))
}

fn bundle_event(m6id: Option<HexText>, status: Option<WithdrawalBundleStatus>) -> PegEvent {
    PegEvent {
        event: Some(PegEventKind::WithdrawalBundle(WithdrawalBundleEvent {
            m6id,
            event: Some(WithdrawalBundleProgress { event: status }),
        })),
    }
}

fn reply(blocks: Vec<Option<Vec<PegEvent>>>) -> GetTwoWayPegDataResponse {
    GetTwoWayPegDataResponse {
        blocks: blocks
            .into_iter()
            .map(|events| PegBlock { block_info: events.map(|events| BlockInfo { events }) })
            .collect(),
    }
}

#[test]
fn prefix_is_stripped_once() {
    assert_eq!(strip_0x("0xab"), "ab");
    assert_eq!(strip_0x("0Xab"), "ab");
    assert_eq!(strip_0x("0x0xab"), "0xab");
    assert_eq!(strip_0x("ab"), "ab");
    assert_eq!(strip_0x("x0ab"), "x0ab");
    assert_eq!(strip_0x("0"), "0");
    assert_eq!(strip_0x("0x"), "");
    assert_eq!(strip_0x(""), "");
}

#[test]
fn hashes_are_parsed_in_either_case() {
    let mut expected = [0xABu8; 32];
    expected[0] = 0x01;
    let plain = format!("01{}", "ab".repeat(31));
    assert_eq!(parse_hex32(&plain), Ok(expected));
    assert_eq!(parse_hex32(&format!("0x{plain}")), Ok(expected));
    assert_eq!(parse_hex32(&plain.to_uppercase()), Ok(expected));
    // Bitcoin's display order is not applied.
    assert_eq!(parse_txid_consensus(&plain), Ok(expected));
    assert_eq!(parse_address(&"7f".repeat(20)), Ok([0x7F; 20]));
}

#[test]
fn other_text_is_no_hash() {
    for bad in ["", "0x", "ab", "zz", "a", &"ab".repeat(33), &"g0".repeat(32), &"é".repeat(32)] {
        assert_eq!(parse_hex32(bad), Err(EnforcerError::InvalidHex(bad.to_string())));
        assert_eq!(parse_address(bad), Err(EnforcerError::InvalidHex(bad.to_string())));
        assert_eq!(parse_txid_consensus(bad), Err(EnforcerError::InvalidHex(bad.to_string())));
    }
}

#[test]
fn errors_are_printed() {
    assert_eq!(EnforcerError::Grpc("gone".to_string()).message(), "enforcer RPC failed: gone");
    assert_eq!(
        EnforcerError::MissingField("hex").message(),
        "enforcer response missing field `hex`"
    );
    assert_eq!(
        EnforcerError::InvalidHex("0xz".to_string()).message(),
        "enforcer returned invalid hex: 0xz"
    );
}

#[test]
fn tip_is_read() {
    let tip = |hex: Option<&str>| GetChainTipResponse {
        block_header_info: Some(BlockHeaderInfo {
            block_hash: Some(HexText { hex: hex.map(str::to_string) }),
        }),
    };
    assert_eq!(
        client().chain_tip(|_: GetChainTipRequest| Ok(tip(Some(&"0f".repeat(32))))),
        Ok([0x0F; 32])
    );
    assert_eq!(
        client().chain_tip(|_: GetChainTipRequest| Err("down".to_string())),
        Err(EnforcerError::Grpc("down".to_string()))
    );
    assert_eq!(read_tip(tip(None)), Err(EnforcerError::MissingField("hex")));
    assert_eq!(read_tip(tip(Some("0f"))), Err(EnforcerError::InvalidHex("0f".to_string())));
    let no_hash =
        GetChainTipResponse { block_header_info: Some(BlockHeaderInfo { block_hash: None }) };
    assert_eq!(read_tip(no_hash), Err(EnforcerError::MissingField("block_hash")));
    assert_eq!(
        read_tip(GetChainTipResponse { block_header_info: None }),
        Err(EnforcerError::MissingField("block_header_info"))
    );
}

#[test]
fn commitment_is_compared() {
    let response = |commitment: Option<HexText>| GetBmmHStarCommitmentResponse {
        result: Some(CommitmentResult::Commitment(BmmCommitment { commitment })),
    };
    assert_eq!(read_commitment(response(text(&"aa".repeat(32))), [0xAA; 32]), Ok(true));
    assert_eq!(read_commitment(response(text(&"aa".repeat(32))), [0xAB; 32]), Ok(false));
    assert_eq!(read_commitment(response(None), [0xAA; 32]), Ok(false));
    assert_eq!(read_commitment(response(Some(HexText { hex: None })), [0xAA; 32]), Ok(false));
    let nothing = GetBmmHStarCommitmentResponse { result: None };
    assert_eq!(read_commitment(nothing, [0xAA; 32]), Ok(false));
    assert_eq!(
        client().is_committed(
            |request: GetBmmHStarCommitmentRequest| {
                assert_eq!(request, commitment_request([0xBB; 32], 3));
                Ok(response(text("0xnot hex")))
            },
            [0xAA; 32],
            [0xBB; 32],
            3,
        ),
        Err(EnforcerError::InvalidHex("0xnot hex".to_string()))
    );
}

#[test]
fn requests_hold_hashes_in_hexadecimal() {
    let mut hash = [0u8; 32];
    hash[0] = 0x12;
    hash[31] = 0xEF;
    let hex = format!("12{}ef", "00".repeat(30));
    let request = commitment_request(hash, 10);
    assert_eq!(request.block_hash, text(&hex));
    assert_eq!((request.sidechain_id, request.max_ancestors), (Some(10), None));
    assert_eq!(parse_hex32(&hex), Ok(hash));
    let request = peg_data_request(10, None, hash);
    assert_eq!(request.sidechain_id, Some(10));
    assert_eq!((request.start_block_hash, request.end_block_hash), (None, text(&hex)));
    let request = peg_data_request(10, Some(hash), [0xFF; 32]);
    assert_eq!(request.start_block_hash, text(&hex));
    assert_eq!(request.end_block_hash, text(&"ff".repeat(32)));
}

#[test]
fn deposits_are_read_in_order() {
    let response = reply(vec![
        Some(vec![
            deposit_of(5, &"01".repeat(20)),
            bundle_event(None, None),
            PegEvent { event: None },
        ]),
        None,
        Some(vec![deposit_of(6, &format!("0x{}", "02".repeat(20)))]),
    ]);
    let expected = vec![
        Deposit { address: [1; 20], value_sats: 5 },
        Deposit { address: [2; 20], value_sats: 6 },
    ];
    let deposits = client().deposits(
        |request: GetTwoWayPegDataRequest| {
            assert_eq!(request, peg_data_request(4, Some([7; 32]), [8; 32]));
            Ok(response)
        },
        4,
        Some([7; 32]),
        [8; 32],
    );
    assert_eq!(deposits, Ok(expected));
    assert_eq!(read_deposits(reply(Vec::new())), Ok(Vec::new()));
}

#[test]
fn first_unreadable_deposit_is_reported() {
    let complete = || deposit_of(5, &"01".repeat(20));
    let no_output = || deposit_event(None);
    let no_value = || deposit_event(Some(DepositOutput { value_sats: None, address: None }));
    let no_address =
        || deposit_event(Some(DepositOutput { value_sats: Some(1), address: None }));
    let no_hex = || {
        deposit_event(Some(DepositOutput {
            value_sats: Some(1),
            address: Some(HexText { hex: None }),
        }))
    };
    let short = || deposit_of(1, "0x0102");
    let missing = |field| Err(EnforcerError::MissingField(field));
    let read = |events| read_deposits(reply(vec![Some(events)]));
    assert_eq!(read(vec![complete(), no_output(), short()]), missing("output"));
    assert_eq!(read(vec![no_value(), no_output()]), missing("value_sats"));
    assert_eq!(read(vec![no_address()]), missing("address"));
    assert_eq!(read(vec![no_hex()]), missing("address"));
    assert_eq!(
        read(vec![short(), no_output()]),
        Err(EnforcerError::InvalidHex("0x0102".to_string()))
    );
}

#[test]
fn outcomes_are_read_in_order() {
    let a = "a1".repeat(32);
    let events = vec![
        bundle_event(text(&a), Some(WithdrawalBundleStatus::Submitted)),
        deposit_event(None),
        bundle_event(text(&a), None),
        bundle_event(text(&a), Some(WithdrawalBundleStatus::Failed)),
        bundle_event(text(&a), Some(WithdrawalBundleStatus::Succeeded)),
    ];
    let outcome = |status| WithdrawalBundleOutcome { m6id: [0xA1; 32], status };
    let outcomes = client().withdrawal_bundle_events(
        |request: GetTwoWayPegDataRequest| {
            assert_eq!(request, peg_data_request(4, None, [8; 32]));
            Ok(reply(vec![Some(events)]))
        },
        4,
        None,
        [8; 32],
    );
    assert_eq!(
        outcomes,
        Ok(vec![
            outcome(WithdrawalBundleStatus::Submitted),
            outcome(WithdrawalBundleStatus::Failed),
            outcome(WithdrawalBundleStatus::Succeeded),
        ])
    );
}

#[test]
fn unreadable_outcome_is_reported_even_without_status() {
    let read = |event| read_outcomes(reply(vec![Some(vec![event])]));
    assert_eq!(read(bundle_event(None, None)), Err(EnforcerError::MissingField("m6id")));
    assert_eq!(
        read(bundle_event(text("77"), None)),
        Err(EnforcerError::InvalidHex("77".to_string()))
    );
    let failed = client().withdrawal_bundle_events(
        |_: GetTwoWayPegDataRequest| Err("down".to_string()),
        4,
        None,
        [8; 32],
    );
    assert_eq!(failed, Err(EnforcerError::Grpc("down".to_string())));
}

#[test]
fn ranges_read_one_after_another_add_up() {
    let first = || Some(vec![deposit_of(5, &"01".repeat(20)), deposit_of(6, &"02".repeat(20))]);
    let second = || Some(vec![deposit_of(7, &"03".repeat(20))]);
    let mut piecewise = read_deposits(reply(vec![first()])).unwrap();
    piecewise.extend(read_deposits(reply(vec![second()])).unwrap());
    assert_eq!(read_deposits(reply(vec![first(), second()])), Ok(piecewise));
}

#[test]
fn bundle_is_sent_as_its_serialization() {
    let tx = Transaction { version: 2, lock_time: 0, input: Vec::new(), output: Vec::new() };
    let request = broadcast_request(9, &tx);
    assert_eq!(request.sidechain_id, Some(9));
    assert_eq!(request.transaction, Some(tx.serialize()));
    // Version, segwit marker and flag, no inputs, no outputs, lock time.
    assert_eq!(tx.serialize(), vec![2, 0, 0, 0, 0, 1, 0, 0, 0, 0, 0, 0]);
    let sent = client().broadcast_withdrawal_bundle(
        |sent: BroadcastWithdrawalBundleRequest| {
            assert_eq!(sent, request);
            Ok(())
        },
        9,
        &tx,
    );
    assert_eq!(sent, Ok(()));
    let refused = client().broadcast_withdrawal_bundle(
        |_: BroadcastWithdrawalBundleRequest| Err("no wallet".to_string()),
        9,
        &tx,
    );
    assert_eq!(refused, Err(EnforcerError::Grpc("no wallet".to_string())));
}

#[test]
fn client_keeps_its_address() {
    assert_eq!(client().base_url, "http://enforcer");
}
