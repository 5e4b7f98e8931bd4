use beth::consensus::{
    deposit_prefix_matches, judge_deposits, judge_header, Bip300301Consensus, BlockSummary,
    ConsensusError, HeaderSummary, Withdrawal, GWEI_PER_SAT,
};
use beth::enforcer::error::EnforcerError;
use beth::enforcer::messages::{
    BlockInfo, BmmCommitment, CommitmentResult, DepositEvent, DepositOutput,
    GetBmmHStarCommitmentRequest, GetBmmHStarCommitmentResponse, GetTwoWayPegDataRequest,
    GetTwoWayPegDataResponse, HexText, PegBlock, PegEvent, PegEventKind,
};
use beth::enforcer::{Deposit, EnforcerClient};
use beth::mainchain::MainchainRange;

type Verdict = Result<(), ConsensusError<&'static str, &'static str>>;

fn deposit(address: u8, value_sats: u64) -> Deposit {
    Deposit { address: [address; 20], value_sats }
}

fn deposit_mint(index: u64, address: u8, value_sats: u64) -> Withdrawal {
    Withdrawal {
        index,
        validator_index: 0,
        address: [address; 20],
        amount: value_sats.saturating_mul(GWEI_PER_SAT),
    }
}

#[test]
fn empty_expected_and_actual_matches() {
    assert!(deposit_prefix_matches(&[], &[]).is_ok());
}

#[test]
fn no_deposits_but_a_withdrawal_present_still_matches() {
    // Withdrawal-bundle refunds (which are not verified) may be the only entries in the list.
    let actual = [deposit_mint(0, 1, 100)];
    assert!(deposit_prefix_matches(&[], &actual).is_ok());
}

#[test]
fn exact_match_succeeds() {
    let expected = [deposit(1, 100), deposit(2, 200)];
    let actual = [deposit_mint(0, 1, 100), deposit_mint(1, 2, 200)];
    assert!(deposit_prefix_matches(&expected, &actual).is_ok());
}

#[test]
fn deposits_followed_by_extra_withdrawals_still_matches() {
    // The prefix is what's checked: anything after (e.g. bundle refunds) is fine.
    let expected = [deposit(1, 100)];
    let actual = [deposit_mint(0, 1, 100), deposit_mint(1, 9, 999)];
    assert!(deposit_prefix_matches(&expected, &actual).is_ok());
}

#[test]
fn fewer_withdrawals_than_expected_deposits_fails() {
    let expected = [deposit(1, 100), deposit(2, 200)];
    let actual = [deposit_mint(0, 1, 100)];
    assert!(deposit_prefix_matches(&expected, &actual).is_err());
}

#[test]
fn wrong_amount_fails() {
    let expected = [deposit(1, 100)];
    let actual = [deposit_mint(0, 1, 999)];
    assert!(deposit_prefix_matches(&expected, &actual).is_err());
}

#[test]
fn wrong_address_fails() {
    let expected = [deposit(1, 100)];
    let actual = [deposit_mint(0, 2, 100)];
    assert!(deposit_prefix_matches(&expected, &actual).is_err());
}

#[test]
fn wrong_order_fails() {
    let expected = [deposit(1, 100), deposit(2, 200)];
    // Swapped relative to `expected`.
    let actual = [deposit_mint(0, 2, 200), deposit_mint(1, 1, 100)];
    assert!(deposit_prefix_matches(&expected, &actual).is_err());
}

#[test]
fn wrong_index_fails() {
    let expected = [deposit(1, 100)];
    let mut actual = deposit_mint(0, 1, 100);
    actual.index = 5;
    assert!(deposit_prefix_matches(&expected, &[actual]).is_err());
}

#[test]
fn nonzero_validator_index_fails() {
    // `validator_index` is always 0 for deposit mints: a nonzero value isn't a deposit mint this
    // function should accept.
    let expected = [deposit(1, 100)];
    let mut actual = deposit_mint(0, 1, 100);
    actual.validator_index = 1;
    assert!(deposit_prefix_matches(&expected, &[actual]).is_err());
}

#[test]
fn mismatch_reasons_name_the_place() {
    let expected = [deposit(1, 100), deposit(2, 200)];
    assert_eq!(
        deposit_prefix_matches(&expected, &[deposit_mint(0, 1, 100)]),
        Err(
            "block has 1 withdrawal(s), expected at least 2 for its BIP300 deposit mints"
                .to_string()
        )
    );
    assert_eq!(
        deposit_prefix_matches(&expected, &[deposit_mint(0, 1, 100), deposit_mint(1, 2, 201)]),
        Err("withdrawal #1 does not match the expected BIP300 deposit mint".to_string())
    );
}

#[test]
fn mint_amounts_stop_at_the_largest_number() {
    let expected = [deposit(1, u64::MAX / 2)];
    let mut actual = deposit_mint(0, 1, 0);
    actual.amount = u64::MAX;
    assert!(deposit_prefix_matches(&expected, &[actual]).is_ok());
    let exact = [deposit(1, u64::MAX / 10)];
    actual.amount = u64::MAX / 10 * 10;
    assert!(deposit_prefix_matches(&exact, &[actual]).is_ok());
}

fn consensus() -> Bip300301Consensus {
    Bip300301Consensus::new(EnforcerClient::new("http://enforcer".to_string()), 10)
}

fn header(extra_data: Vec<u8>) -> HeaderSummary {
    HeaderSummary { hash: [0xAB; 32], number: 7, extra_data }
}

fn commitment_to(hash: &str) -> GetBmmHStarCommitmentResponse {
    GetBmmHStarCommitmentResponse {
        result: Some(CommitmentResult::Commitment(BmmCommitment {
            commitment: Some(HexText { hex: Some(hash.to_string()) }),
        })),
    }
}

#[test]
fn committed_header_is_accepted() {
    let verdict: Verdict = consensus().validate_header(
        Ok(()),
        &header(vec![0x11; 32]),
        |request: GetBmmHStarCommitmentRequest| {
            assert_eq!(request.block_hash, Some(HexText { hex: Some("11".repeat(32)) }));
            assert_eq!(request.sidechain_id, Some(10));
            assert_eq!(request.max_ancestors, None);
            Ok(commitment_to(&"ab".repeat(32)))
        },
    );
    assert_eq!(verdict, Ok(()));
}

#[test]
fn header_without_commitment_is_refused() {
    let expected = format!(
        "block 0x{} (number 7) is not BIP301 BMM-committed in mainchain block 0x{}",
        "ab".repeat(32),
        "11".repeat(32)
    );
    let verdict: Verdict = consensus().validate_header(
        Ok(()),
        &header(vec![0x11; 32]),
        |_: GetBmmHStarCommitmentRequest| Ok(commitment_to(&"cd".repeat(32))),
    );
    assert_eq!(verdict, Err(ConsensusError::Rule(expected.clone())));
    let unknown: Verdict = consensus().validate_header(
        Ok(()),
        &header(vec![0x11; 32]),
        |_: GetBmmHStarCommitmentRequest| {
            Ok(GetBmmHStarCommitmentResponse { result: Some(CommitmentResult::BlockNotFound) })
        },
    );
    assert_eq!(unknown, Err(ConsensusError::Rule(expected)));
}

#[test]
fn header_with_other_extra_data_is_refused_unasked() {
    let verdict: Verdict = consensus().validate_header(
        Ok(()),
        &header(vec![0x11; 31]),
        |_: GetBmmHStarCommitmentRequest| panic!("nothing is to be asked"),
    );
    let expected = format!(
        "block 0x{} (number 7) extraData must be exactly 32 bytes (the BIP301 mainchain block it \
         was BMM-mined against), got 31 bytes",
        "ab".repeat(32)
    );
    assert_eq!(verdict, Err(ConsensusError::Rule(expected)));
}

#[test]
fn standard_verdict_comes_first() {
    let verdict: Verdict = consensus().validate_header(
        Err("bad gas limit"),
        &header(Vec::new()),
        |_: GetBmmHStarCommitmentRequest| panic!("nothing is to be asked"),
    );
    assert_eq!(verdict, Err(ConsensusError::Standard("bad gas limit")));
}

#[test]
fn header_is_refused_while_the_enforcer_cannot_tell() {
    let failed: Verdict = consensus().validate_header(
        Ok(()),
        &header(vec![0x11; 32]),
        |_: GetBmmHStarCommitmentRequest| Err("unavailable".to_string()),
    );
    assert_eq!(
        failed,
        Err(ConsensusError::Enforcer(EnforcerError::Grpc("unavailable".to_string())))
    );
    let garbled: Verdict = consensus().validate_header(
        Ok(()),
        &header(vec![0x11; 32]),
        |_: GetBmmHStarCommitmentRequest| Ok(commitment_to("abcd")),
    );
    assert_eq!(
        garbled,
        Err(ConsensusError::Enforcer(EnforcerError::InvalidHex("abcd".to_string())))
    );
}

fn block(withdrawals: Option<Vec<Withdrawal>>) -> BlockSummary {
    BlockSummary {
        hash: [0xAB; 32],
        parent_hash: [0xCD; 32],
        extra_data: vec![0x22; 32],
        withdrawals,
    }
}

fn reply_with_deposit() -> GetTwoWayPegDataResponse {
    GetTwoWayPegDataResponse {
        blocks: vec![PegBlock {
            block_info: Some(BlockInfo {
                events: vec![PegEvent {
                    event: Some(PegEventKind::Deposit(DepositEvent {
                        output: Some(DepositOutput {
                            value_sats: Some(100),
                            address: Some(HexText { hex: Some("01".repeat(20)) }),
                        }),
                    })),
                }],
            }),
        }],
    }
}

#[test]
fn block_that_mints_its_deposits_is_accepted() {
    let verdict: Verdict = consensus().validate_block_post_execution(
        Ok(()),
        &block(Some(vec![deposit_mint(0, 1, 100)])),
        |parent| {
            assert_eq!(parent, [0xCD; 32]);
            Ok(Some(vec![0x11; 32]))
        },
        |request: GetTwoWayPegDataRequest| {
            assert_eq!(request.sidechain_id, Some(10));
            assert_eq!(request.start_block_hash, Some(HexText { hex: Some("11".repeat(32)) }));
            assert_eq!(request.end_block_hash, Some(HexText { hex: Some("22".repeat(32)) }));
            Ok(reply_with_deposit())
        },
    );
    assert_eq!(verdict, Ok(()));
}

#[test]
fn block_that_mints_nothing_is_refused_with_the_range() {
    let verdict: Verdict = consensus().validate_block_post_execution(
        Ok(()),
        &block(None),
        |_| Ok(Some(Vec::new())),
        |request: GetTwoWayPegDataRequest| {
            assert_eq!(request.start_block_hash, None);
            Ok(reply_with_deposit())
        },
    );
    let expected = format!(
        "block 0x{} deposit mints don't match mainchain range None..=0x{}: block has 0 \
         withdrawal(s), expected at least 1 for its BIP300 deposit mints",
        "ab".repeat(32),
        "22".repeat(32)
    );
    assert_eq!(verdict, Err(ConsensusError::Rule(expected)));
}

#[test]
fn block_without_known_parent_is_refused() {
    let verdict: Verdict = consensus().validate_block_post_execution(
        Ok(()),
        &block(None),
        |_| Ok(None),
        |_: GetTwoWayPegDataRequest| panic!("nothing is to be asked"),
    );
    let expected = format!("parent header 0x{} not found", "cd".repeat(32));
    assert_eq!(verdict, Err(ConsensusError::Rule(expected)));
    let failed: Verdict = consensus().validate_block_post_execution(
        Ok(()),
        &block(None),
        |_| Err("database"),
        |_: GetTwoWayPegDataRequest| panic!("nothing is to be asked"),
    );
    assert_eq!(failed, Err(ConsensusError::Provider("database")));
}

#[test]
fn block_with_other_extra_data_is_refused() {
    let mut other = block(None);
    other.extra_data = vec![0x22; 33];
    let verdict: Verdict = consensus().validate_block_post_execution(
        Ok(()),
        &other,
        |_| Ok(Some(Vec::new())),
        |_: GetTwoWayPegDataRequest| panic!("nothing is to be asked"),
    );
    let expected = format!("block 0x{} extraData must be exactly 32 bytes", "ab".repeat(32));
    assert_eq!(verdict, Err(ConsensusError::Rule(expected)));
    let standard: Verdict = consensus().validate_block_post_execution(
        Err("bad receipts"),
        &other,
        |_| panic!("nothing is to be looked up"),
        |_: GetTwoWayPegDataRequest| panic!("nothing is to be asked"),
    );
    assert_eq!(standard, Err(ConsensusError::Standard("bad receipts")));
}

#[test]
fn judgements_follow_the_enforcer() {
    let accepted: Verdict = judge_header(&header(vec![0; 32]), Ok(true));
    assert_eq!(accepted, Ok(()));
    let range = MainchainRange { start: Some([0x11; 32]), end: [0x22; 32] };
    let refused: Verdict =
        judge_deposits(&block(None), &range, Ok(vec![deposit(1, 1)]));
    let expected = format!(
        "block 0x{} deposit mints don't match mainchain range Some(0x{})..=0x{}: block has 0 \
         withdrawal(s), expected at least 1 for its BIP300 deposit mints",
        "ab".repeat(32),
        "11".repeat(32),
        "22".repeat(32)
    );
    assert_eq!(refused, Err(ConsensusError::Rule(expected)));
    let unanswered: Verdict =
        judge_deposits(&block(None), &range, Err(EnforcerError::MissingField("output")));
    assert_eq!(unanswered, Err(ConsensusError::Enforcer(EnforcerError::MissingField("output"))));
}
