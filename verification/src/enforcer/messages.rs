//! The messages that are exchanged with the enforcer.

use vstd::prelude::*;

use super::error::{EnforcerError, EnforcerErrorView};
use super::parse::{lemma_hash_roundtrip, parse_bytes, parse_hex32, parsed};
use super::WithdrawalBundleStatus;
use crate::text::{hex_encode, lower_hex};
use crate::withdrawal_bundle::m6::{consensus_encoding, witnesses_fit, Transaction};
use crate::words::words_equal;

verus! {

/// Bytes in hexadecimal, as they stand in a message.
#[derive(Debug, Clone, PartialEq, Eq)]
pub struct HexText {
    pub hex: Option<String>,
}

/// Asks for the tip of the mainchain.
#[derive(Debug, Clone, Copy, PartialEq, Eq)]
pub struct GetChainTipRequest {}

#[derive(Debug, Clone, PartialEq, Eq)]
pub struct BlockHeaderInfo {
    pub block_hash: Option<HexText>,
}

#[derive(Debug, Clone, PartialEq, Eq)]
pub struct GetChainTipResponse {
    pub block_header_info: Option<BlockHeaderInfo>,
}

/// Asks for the BIP301 commitment that a mainchain block holds for a sidechain.
#[derive(Debug, Clone, PartialEq, Eq)]
pub struct GetBmmHStarCommitmentRequest {
    pub block_hash: Option<HexText>,
    pub sidechain_id: Option<u32>,
    pub max_ancestors: Option<u32>,
}

#[derive(Debug, Clone, PartialEq, Eq)]
pub struct BmmCommitment {
    pub commitment: Option<HexText>,
}

#[derive(Debug, Clone, PartialEq, Eq)]
pub enum CommitmentResult {
    /// The mainchain block is not known.
    BlockNotFound,
    /// The block is known; it may hold a commitment.
    Commitment(BmmCommitment),
}

#[derive(Debug, Clone, PartialEq, Eq)]
pub struct GetBmmHStarCommitmentResponse {
    pub result: Option<CommitmentResult>,
}

/// Asks for the peg events of a sidechain in a range of mainchain blocks.
#[derive(Debug, Clone, PartialEq, Eq)]
pub struct GetTwoWayPegDataRequest {
    pub sidechain_id: Option<u32>,
    pub start_block_hash: Option<HexText>,
    pub end_block_hash: Option<HexText>,
}

#[derive(Debug, Clone, PartialEq, Eq)]
pub struct DepositOutput {
    pub value_sats: Option<u64>,
    pub address: Option<HexText>,
}

#[derive(Debug, Clone, PartialEq, Eq)]
pub struct DepositEvent {
    pub output: Option<DepositOutput>,
}

#[derive(Debug, Clone, PartialEq, Eq)]
pub struct WithdrawalBundleProgress {
    pub event: Option<WithdrawalBundleStatus>,
}

#[derive(Debug, Clone, PartialEq, Eq)]
pub struct WithdrawalBundleEvent {
    pub m6id: Option<HexText>,
    pub event: Option<WithdrawalBundleProgress>,
}

#[derive(Debug, Clone, PartialEq, Eq)]
pub enum PegEventKind {
    Deposit(DepositEvent),
    WithdrawalBundle(WithdrawalBundleEvent),
}

#[derive(Debug, Clone, PartialEq, Eq)]
pub struct PegEvent {
    pub event: Option<PegEventKind>,
}

#[derive(Debug, Clone, PartialEq, Eq)]
pub struct BlockInfo {
    pub events: Vec<PegEvent>,
}

#[derive(Debug, Clone, PartialEq, Eq)]
pub struct PegBlock {
    pub block_info: Option<BlockInfo>,
}

#[derive(Debug, Clone, PartialEq, Eq)]
pub struct GetTwoWayPegDataResponse {
    pub blocks: Vec<PegBlock>,
}

/// Hands a withdrawal bundle's transaction to the enforcer's wallet.
#[derive(Debug, Clone, PartialEq, Eq)]
pub struct BroadcastWithdrawalBundleRequest {
    pub sidechain_id: Option<u32>,
    pub transaction: Option<Vec<u8>>,
}

/// What is asked about one mainchain block's commitment.
pub open spec fn asks_for_commitment(
    request: GetBmmHStarCommitmentRequest,
    main_block_hash: Seq<u8>,
    sidechain_id: u32,
) -> bool {
    &&& is_hash_text(request.block_hash, main_block_hash)
    &&& request.sidechain_id == Some(sidechain_id)
    &&& request.max_ancestors is None
}

/// Whether `text` is `hash` in hexadecimal.
pub open spec fn is_hash_text(text: Option<HexText>, hash: Seq<u8>) -> bool {
    text matches Some(HexText { hex: Some(hex) }) && hex@ == lower_hex(hash)
}

/// What is asked about the peg in the mainchain blocks after `start` up to and including `end`.
pub open spec fn asks_for_peg_data(
    request: GetTwoWayPegDataRequest,
    sidechain_id: u32,
    start: Option<[u8; 32]>,
    end: Seq<u8>,
) -> bool {
    &&& request.sidechain_id == Some(sidechain_id)
    &&& match start {
        Some(start) => is_hash_text(request.start_block_hash, start@),
        None => request.start_block_hash is None,
    }
    &&& is_hash_text(request.end_block_hash, end)
}

/// What is sent to have `tx` broadcast.
pub open spec fn asks_for_broadcast(
    request: BroadcastWithdrawalBundleRequest,
    sidechain_id: u32,
    tx: Transaction,
) -> bool {
    &&& request.sidechain_id == Some(sidechain_id)
    &&& request.transaction matches Some(bytes) && bytes@ == consensus_encoding(tx@)
}

/// A hash as it is put into a request.
fn hash_to_text(hash: &[u8; 32]) -> (text: Option<HexText>)
    ensures
        is_hash_text(text, hash@),
{
    Some(HexText { hex: Some(hex_encode(hash)) })
}

/// The request about one mainchain block's commitment.
pub fn commitment_request(main_block_hash: [u8; 32], sidechain_id: u32) -> (request:
    GetBmmHStarCommitmentRequest)
    ensures
        asks_for_commitment(request, main_block_hash@, sidechain_id),
{
    GetBmmHStarCommitmentRequest {
        block_hash: hash_to_text(&main_block_hash),
        sidechain_id: Some(sidechain_id),
        max_ancestors: None,
    }
}

/// The request about the peg in a range of mainchain blocks.
pub fn peg_data_request(
    sidechain_id: u32,
    start_block_hash: Option<[u8; 32]>,
    end_block_hash: [u8; 32],
) -> (request: GetTwoWayPegDataRequest)
    ensures
        asks_for_peg_data(request, sidechain_id, start_block_hash, end_block_hash@),
{
    GetTwoWayPegDataRequest {
        sidechain_id: Some(sidechain_id),
        start_block_hash: match start_block_hash {
            Some(hash) => hash_to_text(&hash),
            None => None,
        },
        end_block_hash: hash_to_text(&end_block_hash),
    }
}

/// The request that hands `tx` over for broadcast.
pub fn broadcast_request(sidechain_id: u32, tx: &Transaction) -> (request:
    BroadcastWithdrawalBundleRequest)
    requires
        witnesses_fit(tx@),
    ensures
        asks_for_broadcast(request, sidechain_id, *tx),
{
    BroadcastWithdrawalBundleRequest {
        sidechain_id: Some(sidechain_id),
        transaction: Some(tx.serialize()),
    }
}

/// The tip that a reply names.
pub open spec fn tip_in(response: GetChainTipResponse) -> Result<Seq<u8>, EnforcerErrorView> {
    match response.block_header_info {
        None => Err(EnforcerErrorView::MissingField("block_header_info"@)),
        Some(info) => match info.block_hash {
            None => Err(EnforcerErrorView::MissingField("block_hash"@)),
            Some(block_hash) => match block_hash.hex {
                None => Err(EnforcerErrorView::MissingField("hex"@)),
                Some(hex) => parse_bytes(hex@, 32),
            },
        },
    }
}

/// Whether a reply reports `sidechain_block_hash` as the commitment. A block that is not known, or
/// that holds no commitment for the sidechain, reports nothing.
pub open spec fn reports_commitment(
    response: GetBmmHStarCommitmentResponse,
    sidechain_block_hash: Seq<u8>,
) -> Result<bool, EnforcerErrorView> {
    match response.result {
        Some(CommitmentResult::Commitment(found)) => match found.commitment {
            Some(HexText { hex: Some(hex) }) => match parse_bytes(hex@, 32) {
                Ok(hash) => Ok(hash == sidechain_block_hash),
                Err(error) => Err(error),
            },
            _ => Ok(false),
        },
        _ => Ok(false),
    }
}

/// Reads the tip that a reply names.
pub fn read_tip(response: GetChainTipResponse) -> (tip: Result<[u8; 32], EnforcerError>)
    ensures
        parsed(tip) == tip_in(response),
{
    match response.block_header_info {
        None => Err(EnforcerError::MissingField("block_header_info")),
        Some(info) => match info.block_hash {
            None => Err(EnforcerError::MissingField("block_hash")),
            Some(block_hash) => match block_hash.hex {
                None => Err(EnforcerError::MissingField("hex")),
                Some(hex) => parse_hex32(hex.as_str()),
            },
        },
    }
}

/// The answer to a yes-or-no question, or what the error holds.
pub open spec fn answered(result: Result<bool, EnforcerError>) -> Result<bool, EnforcerErrorView> {
    match result {
        Ok(answer) => Ok(answer),
        Err(error) => Err(error@),
    }
}

/// Reads whether a reply reports `sidechain_block_hash` as the commitment.
pub fn read_commitment(
    response: GetBmmHStarCommitmentResponse,
    sidechain_block_hash: [u8; 32],
) -> (committed: Result<bool, EnforcerError>)
    ensures
        answered(committed) == reports_commitment(response, sidechain_block_hash@),
{
    match response.result {
        Some(CommitmentResult::Commitment(found)) => match found.commitment {
            Some(HexText { hex: Some(hex) }) => match parse_hex32(hex.as_str()) {
                Ok(hash) => Ok(words_equal(&hash, &sidechain_block_hash)),
                Err(error) => Err(error),
            },
            _ => Ok(false),
        },
        _ => Ok(false),
    }
}

/// What is asked about a commitment names the mainchain block and the sidechain as they are, and no
/// ancestors.
pub proof fn lemma_commitment_request_fields(
    request: GetBmmHStarCommitmentRequest,
    main_block_hash: Seq<u8>,
    sidechain_id: u32,
)
    requires
        asks_for_commitment(request, main_block_hash, sidechain_id),
    ensures
        request.block_hash matches Some(text) && text.hex matches Some(hex) && hex@ == lower_hex(
            main_block_hash,
        ),
        request.sidechain_id == Some(sidechain_id),
        request.max_ancestors == None::<u32>,
{
}

/// What is asked about the peg names both ends of the range and the sidechain as they are, and no
/// first end where the range has none.
pub proof fn lemma_peg_request_fields(
    request: GetTwoWayPegDataRequest,
    sidechain_id: u32,
    start: Option<[u8; 32]>,
    end: Seq<u8>,
)
    requires
        asks_for_peg_data(request, sidechain_id, start, end),
    ensures
        request.sidechain_id == Some(sidechain_id),
        start is None ==> request.start_block_hash is None,
        start matches Some(start) ==> (request.start_block_hash matches Some(text)
            && text.hex matches Some(hex) && hex@ == lower_hex(start@)),
        request.end_block_hash matches Some(text) && text.hex matches Some(hex) && hex@
            == lower_hex(end),
{
}

/// What is sent for broadcast is the transaction's own serialization.
pub proof fn lemma_broadcast_request_fields(
    request: BroadcastWithdrawalBundleRequest,
    sidechain_id: u32,
    tx: Transaction,
)
    requires
        asks_for_broadcast(request, sidechain_id, tx),
    ensures
        request.sidechain_id == Some(sidechain_id),
        request.transaction matches Some(bytes) && bytes@ == consensus_encoding(tx@),
{
}

/// A tip that a reply spells in hexadecimal, with or without `0x`, is read as it is.
pub proof fn lemma_tip_is_read(response: GetChainTipResponse, hex: String, tip: Seq<u8>)
    requires
        response.block_header_info == Some(
            (BlockHeaderInfo { block_hash: Some(HexText { hex: Some(hex) }) }),
        ),
        tip.len() == 32,
        hex@ == lower_hex(tip) || hex@ == "0x"@ + lower_hex(tip),
    ensures
        tip_in(response) == Ok::<Seq<u8>, EnforcerErrorView>(tip),
{
    lemma_hash_roundtrip(tip);
}

/// A reply that lacks a field on the way to the tip says which, and one that is no 32 bytes in
/// hexadecimal is quoted.
pub proof fn lemma_tip_is_missing(response: GetChainTipResponse)
    ensures
        response.block_header_info is None ==> tip_in(response) == Err::<Seq<u8>, _>(
            EnforcerErrorView::MissingField("block_header_info"@),
        ),
        response.block_header_info matches Some(info) ==> info.block_hash is None ==> tip_in(
            response,
        ) == Err::<Seq<u8>, _>(EnforcerErrorView::MissingField("block_hash"@)),
        response.block_header_info matches Some(info) ==> (info.block_hash matches Some(text)
            ==> (text.hex is None ==> tip_in(response) == Err::<Seq<u8>, _>(
            EnforcerErrorView::MissingField("hex"@),
        ))),
        response.block_header_info matches Some(info) ==> (info.block_hash matches Some(text)
            ==> (text.hex matches Some(hex) ==> (parse_bytes(hex@, 32) is Err ==> tip_in(
            response,
        ) == Err::<Seq<u8>, _>(EnforcerErrorView::InvalidHex(hex@))))),
{
}

/// A commitment that a reply spells in hexadecimal, with or without `0x`, is reported for the block
/// with that very hash, and for no other block.
pub proof fn lemma_commitment_is_read(
    response: GetBmmHStarCommitmentResponse,
    hex: String,
    hash: Seq<u8>,
    sidechain_block_hash: Seq<u8>,
)
    requires
        response.result == Some(
            CommitmentResult::Commitment(
                (BmmCommitment { commitment: Some(HexText { hex: Some(hex) }) }),
            ),
        ),
        hash.len() == 32,
        hex@ == lower_hex(hash) || hex@ == "0x"@ + lower_hex(hash),
    ensures
        sidechain_block_hash == hash ==> reports_commitment(response, sidechain_block_hash)
            == Ok::<bool, EnforcerErrorView>(true),
        sidechain_block_hash != hash ==> reports_commitment(response, sidechain_block_hash)
            == Ok::<bool, EnforcerErrorView>(false),
{
    lemma_hash_roundtrip(hash);
}

/// A reply without a commitment reports none for any block, and one that is no 32 bytes in
/// hexadecimal is quoted.
pub proof fn lemma_commitment_is_missing(
    response: GetBmmHStarCommitmentResponse,
    sidechain_block_hash: Seq<u8>,
)
    ensures
        response.result is None ==> reports_commitment(response, sidechain_block_hash) == Ok::<
            bool,
            EnforcerErrorView,
        >(false),
        response.result == Some(CommitmentResult::BlockNotFound) ==> reports_commitment(
            response,
            sidechain_block_hash,
        ) == Ok::<bool, EnforcerErrorView>(false),
        response.result matches Some(CommitmentResult::Commitment(found)) ==> (
        found.commitment is None ==> reports_commitment(response, sidechain_block_hash) == Ok::<
            bool,
            EnforcerErrorView,
        >(false)),
        response.result matches Some(CommitmentResult::Commitment(found)) ==> (
        found.commitment matches Some(text) ==> (text.hex is None ==> reports_commitment(
            response,
            sidechain_block_hash,
        ) == Ok::<bool, EnforcerErrorView>(false))),
        response.result matches Some(CommitmentResult::Commitment(found)) ==> (
        found.commitment matches Some(text) ==> (text.hex matches Some(hex) ==> (parse_bytes(
            hex@,
            32,
        ) is Err ==> reports_commitment(response, sidechain_block_hash)
            == Err::<bool, _>(EnforcerErrorView::InvalidHex(hex@))))),
{
}

/// What is read is handed on: an answer as it is, and an error as what it holds.
pub proof fn lemma_answers_are_handed_on(
    answer: bool,
    bytes: [u8; 32],
    error: EnforcerError,
)
    ensures
        answered(Ok::<bool, EnforcerError>(answer)) == Ok::<bool, EnforcerErrorView>(answer),
        answered(Err::<bool, EnforcerError>(error)) == Err::<bool, _>(error@),
        parsed(Ok::<[u8; 32], EnforcerError>(bytes)) == Ok::<Seq<u8>, EnforcerErrorView>(bytes@),
        parsed(Err::<[u8; 32], EnforcerError>(error)) == Err::<Seq<u8>, _>(error@),
{
}

} // verus!
