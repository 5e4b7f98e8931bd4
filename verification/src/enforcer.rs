//! What the sidechain asks of a BIP300/301 enforcer, and what it makes of the answers.
//!
//! Each query of [`EnforcerClient`] takes the remote call as an argument: it says what is sent, and
//! what follows from each reply.

pub mod error;
pub mod events;
pub mod messages;
pub mod parse;

use vstd::prelude::*;

use self::error::{EnforcerError, EnforcerErrorView};
use self::events::{
    deposits_in, deposits_read, outcomes_in, outcomes_read, read_deposits, read_outcomes,
};
use self::messages::{
    answered, asks_for_broadcast, asks_for_commitment, asks_for_peg_data, broadcast_request,
    commitment_request, peg_data_request, read_commitment, read_tip, reports_commitment, tip_in,
    BroadcastWithdrawalBundleRequest, GetBmmHStarCommitmentRequest, GetBmmHStarCommitmentResponse,
    GetChainTipRequest, GetChainTipResponse, GetTwoWayPegDataRequest, GetTwoWayPegDataResponse,
};
use self::parse::parsed;
use crate::text::lower_hex;
use crate::withdrawal_bundle::m6::{witnesses_fit, Transaction};

verus! {

/// A BIP300 two-way-peg deposit onto this sidechain.
#[derive(Debug, Clone, Copy, PartialEq, Eq)]
pub struct Deposit {
    pub address: [u8; 20],
    pub value_sats: u64,
}

/// A BIP300 withdrawal bundle's ("M6" transaction's) status on Bitcoin mainchain, as reported by
/// the enforcer.
#[derive(Debug, Clone, Copy, PartialEq, Eq, Structural)]
pub enum WithdrawalBundleStatus {
    /// Proposed, awaiting mainchain miner votes (acks).
    Submitted,
    /// Reached the ack threshold and was mined into a mainchain block.
    Succeeded,
    /// Failed to reach the ack threshold before its maximum age.
    Failed,
}

/// What became of a withdrawal bundle.
#[derive(Debug, Clone, Copy, PartialEq, Eq)]
pub struct WithdrawalBundleOutcome {
    /// The bundle's transaction id, in consensus byte order.
    pub m6id: [u8; 32],
    pub status: WithdrawalBundleStatus,
}

/// What a deposit holds.
#[verifier::ext_equal]
pub struct DepositView {
    pub address: Seq<u8>,
    pub value_sats: u64,
}

impl View for Deposit {
    type V = DepositView;

    open spec fn view(&self) -> DepositView {
        DepositView { address: self.address@, value_sats: self.value_sats }
    }
}

/// What a bundle's outcome holds.
#[verifier::ext_equal]
pub struct OutcomeView {
    pub m6id: Seq<u8>,
    pub status: WithdrawalBundleStatus,
}

impl View for WithdrawalBundleOutcome {
    type V = OutcomeView;

    open spec fn view(&self) -> OutcomeView {
        OutcomeView { m6id: self.m6id@, status: self.status }
    }
}

/// What a list of deposits holds.
pub open spec fn deposit_views(deposits: Seq<Deposit>) -> Seq<DepositView> {
    deposits.map_values(|deposit: Deposit| deposit@)
}

/// What a list of outcomes holds.
pub open spec fn outcome_views(outcomes: Seq<WithdrawalBundleOutcome>) -> Seq<OutcomeView> {
    outcomes.map_values(|outcome: WithdrawalBundleOutcome| outcome@)
}

/// What follows from a reply: what `read` makes of it, or the status that the call failed with.
pub open spec fn after_call<A, T>(
    reply: Result<A, String>,
    read: spec_fn(A) -> Result<T, EnforcerErrorView>,
) -> Result<T, EnforcerErrorView> {
    match reply {
        Ok(response) => read(response),
        Err(status) => Err(EnforcerErrorView::Grpc(status@)),
    }
}

/// Whether `outcomes` is what `rpc` replies about the mainchain blocks after `start_block_hash` up
/// to and including `end_block_hash`.
pub open spec fn are_outcomes_of<R>(
    outcomes: Result<Vec<WithdrawalBundleOutcome>, EnforcerError>,
    sidechain_id: u32,
    start_block_hash: Option<[u8; 32]>,
    end_block_hash: [u8; 32],
    rpc: R,
) -> bool where R: FnOnce(GetTwoWayPegDataRequest) -> Result<GetTwoWayPegDataResponse, String> {
    exists|
        request: GetTwoWayPegDataRequest,
        reply: Result<GetTwoWayPegDataResponse, String>,
    |
        {
            &&& asks_for_peg_data(request, sidechain_id, start_block_hash, end_block_hash@)
            &&& #[trigger] call_ensures(rpc, (request,), reply)
            &&& outcomes_read(outcomes) == after_call(
                reply,
                |response: GetTwoWayPegDataResponse| outcomes_in(response),
            )
        }
}

/// A client of the enforcer at `base_url`.
#[derive(Debug, Clone)]
pub struct EnforcerClient {
    pub base_url: String,
}

impl EnforcerClient {
    /// A client of the enforcer at `base_url`.
    pub fn new(base_url: String) -> (client: Self)
        ensures
            client.base_url == base_url,
    {
        EnforcerClient { base_url }
    }

    /// Returns the current mainchain tip's block hash. `rpc` is the remote call.
    pub fn chain_tip<R>(&self, rpc: R) -> (tip: Result<[u8; 32], EnforcerError>) where
        R: FnOnce(GetChainTipRequest) -> Result<GetChainTipResponse, String>,

        requires
            call_requires(rpc, (GetChainTipRequest {  },)),
        ensures
            exists|reply: Result<GetChainTipResponse, String>| #[trigger]
                call_ensures(rpc, (GetChainTipRequest {  },), reply) && parsed(tip) == after_call(
                    reply,
                    |response: GetChainTipResponse| tip_in(response),
                ),
    {
        match rpc(GetChainTipRequest {  }) {
            Ok(response) => read_tip(response),
            Err(status) => Err(EnforcerError::Grpc(status)),
        }
    }

    /// Returns whether `sidechain_block_hash` is the BIP301 BMM h* commitment recorded in
    /// `main_block_hash`, for sidechain `sidechain_id`. `rpc` is the remote call.
    ///
    /// Note: this only checks the specific mainchain block referenced by the header being
    /// validated. It does not walk mainchain ancestry to tolerate the commitment landing in a
    /// later block.
    pub fn is_committed<R>(
        &self,
        rpc: R,
        sidechain_block_hash: [u8; 32],
        main_block_hash: [u8; 32],
        sidechain_id: u32,
    ) -> (committed: Result<bool, EnforcerError>) where
        R: FnOnce(GetBmmHStarCommitmentRequest) -> Result<GetBmmHStarCommitmentResponse, String>,

        requires
            forall|request: GetBmmHStarCommitmentRequest|
                asks_for_commitment(request, main_block_hash@, sidechain_id) ==> #[trigger]
                call_requires(rpc, (request,)),
        ensures
            exists|
                request: GetBmmHStarCommitmentRequest,
                reply: Result<GetBmmHStarCommitmentResponse, String>,
            |
                {
                    &&& asks_for_commitment(request, main_block_hash@, sidechain_id)
                    &&& #[trigger] call_ensures(rpc, (request,), reply)
                    &&& answered(committed) == after_call(
                        reply,
                        |response: GetBmmHStarCommitmentResponse|
                            reports_commitment(response, sidechain_block_hash@),
                    )
                },
    {
        match rpc(commitment_request(main_block_hash, sidechain_id)) {
            Ok(response) => read_commitment(response, sidechain_block_hash),
            Err(status) => Err(EnforcerError::Grpc(status)),
        }
    }

    /// Returns all BIP300 deposits for `sidechain_id` recorded in mainchain blocks after
    /// `start_block_hash` (exclusive) up to and including `end_block_hash`.
    /// `start_block_hash = None` returns deposits from the start of BIP300 history. `rpc` is the
    /// remote call.
    ///
    /// Takes each deposit's destination `address` as the raw 20 bytes of an L2 address, as chosen
    /// by the depositor: the enforcer treats it as opaque sidechain-defined data.
    pub fn deposits<R>(
        &self,
        rpc: R,
        sidechain_id: u32,
        start_block_hash: Option<[u8; 32]>,
        end_block_hash: [u8; 32],
    ) -> (deposits: Result<Vec<Deposit>, EnforcerError>) where
        R: FnOnce(GetTwoWayPegDataRequest) -> Result<GetTwoWayPegDataResponse, String>,

        requires
            forall|request: GetTwoWayPegDataRequest|
                asks_for_peg_data(request, sidechain_id, start_block_hash, end_block_hash@)
                    ==> #[trigger] call_requires(rpc, (request,)),
        ensures
            exists|
                request: GetTwoWayPegDataRequest,
                reply: Result<GetTwoWayPegDataResponse, String>,
            |
                {
                    &&& asks_for_peg_data(request, sidechain_id, start_block_hash, end_block_hash@)
                    &&& #[trigger] call_ensures(rpc, (request,), reply)
                    &&& deposits_read(deposits) == after_call(
                        reply,
                        |response: GetTwoWayPegDataResponse| deposits_in(response),
                    )
                },
    {
        match rpc(peg_data_request(sidechain_id, start_block_hash, end_block_hash)) {
            Ok(response) => read_deposits(response),
            Err(status) => Err(EnforcerError::Grpc(status)),
        }
    }

    /// Broadcasts a BIP300 withdrawal bundle ("M6" transaction). `tx` should be blinded (no
    /// inputs): the enforcer's wallet attaches the input that spends the mainchain treasury
    /// itself. `rpc` is the remote call.
    pub fn broadcast_withdrawal_bundle<R>(
        &self,
        rpc: R,
        sidechain_id: u32,
        tx: &Transaction,
    ) -> (sent: Result<(), EnforcerError>) where
        R: FnOnce(BroadcastWithdrawalBundleRequest) -> Result<(), String>,

        requires
            witnesses_fit(tx@),
            forall|request: BroadcastWithdrawalBundleRequest|
                asks_for_broadcast(request, sidechain_id, *tx) ==> #[trigger] call_requires(
                    rpc,
                    (request,),
                ),
        ensures
            exists|request: BroadcastWithdrawalBundleRequest, reply: Result<(), String>|
                {
                    &&& asks_for_broadcast(request, sidechain_id, *tx)
                    &&& #[trigger] call_ensures(rpc, (request,), reply)
                    &&& match reply {
                        Ok(()) => sent is Ok,
                        Err(status) => sent matches Err(error) && error@
                            == EnforcerErrorView::Grpc(status@),
                    }
                },
    {
        match rpc(broadcast_request(sidechain_id, tx)) {
            Ok(()) => Ok(()),
            Err(status) => Err(EnforcerError::Grpc(status)),
        }
    }

    /// Returns BIP300 withdrawal-bundle outcome events for `sidechain_id`, recorded in mainchain
    /// blocks after `start_block_hash` (exclusive) up to and including `end_block_hash`. Same
    /// range semantics as [`Self::deposits`]. `rpc` is the remote call.
    pub fn withdrawal_bundle_events<R>(
        &self,
        rpc: R,
        sidechain_id: u32,
        start_block_hash: Option<[u8; 32]>,
        end_block_hash: [u8; 32],
    ) -> (outcomes: Result<Vec<WithdrawalBundleOutcome>, EnforcerError>) where
        R: FnOnce(GetTwoWayPegDataRequest) -> Result<GetTwoWayPegDataResponse, String>,

        requires
            forall|request: GetTwoWayPegDataRequest|
                asks_for_peg_data(request, sidechain_id, start_block_hash, end_block_hash@)
                    ==> #[trigger] call_requires(rpc, (request,)),
        ensures
            are_outcomes_of(outcomes, sidechain_id, start_block_hash, end_block_hash, rpc),
    {
        match rpc(peg_data_request(sidechain_id, start_block_hash, end_block_hash)) {
            Ok(response) => read_outcomes(response),
            Err(status) => Err(EnforcerError::Grpc(status)),
        }
    }
}

/// What is said of a list of deposits is said of each of them in its place, field by field.
pub proof fn lemma_deposit_views(deposits: Seq<Deposit>, i: int)
    requires
        0 <= i < deposits.len(),
    ensures
        deposit_views(deposits).len() == deposits.len(),
        deposit_views(deposits)[i].address == deposits[i].address@,
        deposit_views(deposits)[i].value_sats == deposits[i].value_sats,
{
}

/// What is said of a list of outcomes is said of each of them in its place, field by field.
pub proof fn lemma_outcome_views(outcomes: Seq<WithdrawalBundleOutcome>, i: int)
    requires
        0 <= i < outcomes.len(),
    ensures
        outcome_views(outcomes).len() == outcomes.len(),
        outcome_views(outcomes)[i].m6id == outcomes[i].m6id@,
        outcome_views(outcomes)[i].status == outcomes[i].status,
{
}

/// A reply is read, and a call that failed is reported with its status.
pub proof fn lemma_calls_are_followed<A, T>(
    response: A,
    status: String,
    read: spec_fn(A) -> Result<T, EnforcerErrorView>,
)
    ensures
        after_call(Ok::<A, String>(response), read) == read(response),
        after_call(Err::<A, String>(status), read) == Err::<T, _>(
            EnforcerErrorView::Grpc(status@),
        ),
{
}

/// The outcomes are those that the enforcer replied with, as many and in the same order, asked
/// about exactly this range and this sidechain; what cannot be had is an error for the reason
/// given.
pub proof fn lemma_outcomes_are_fetched<R>(
    outcomes: Result<Vec<WithdrawalBundleOutcome>, EnforcerError>,
    sidechain_id: u32,
    start_block_hash: Option<[u8; 32]>,
    end_block_hash: [u8; 32],
    rpc: R,
) where R: FnOnce(GetTwoWayPegDataRequest) -> Result<GetTwoWayPegDataResponse, String>
    requires
        are_outcomes_of(outcomes, sidechain_id, start_block_hash, end_block_hash, rpc),
    ensures
        exists|request: GetTwoWayPegDataRequest, reply: Result<GetTwoWayPegDataResponse, String>|
            {
                &&& #[trigger] call_ensures(rpc, (request,), reply)
                &&& request.sidechain_id == Some(sidechain_id)
                &&& start_block_hash is None ==> request.start_block_hash is None
                &&& start_block_hash matches Some(start) ==> (
                request.start_block_hash matches Some(text) && text.hex matches Some(hex) && hex@
                    == lower_hex(start@))
                &&& request.end_block_hash matches Some(text) && text.hex matches Some(hex) && hex@
                    == lower_hex(end_block_hash@)
                &&& match reply {
                    Err(status) => outcomes matches Err(error) && error@
                        == EnforcerErrorView::Grpc(status@),
                    Ok(response) => match outcomes {
                        Ok(outcomes) => outcomes_in(response) == Ok::<_, EnforcerErrorView>(
                            outcomes@.map_values(|outcome: WithdrawalBundleOutcome| outcome@),
                        ),
                        Err(error) => outcomes_in(response) == Err::<Seq<OutcomeView>, _>(error@),
                    },
                }
            },
{
    let (request, reply) = choose|
        request: GetTwoWayPegDataRequest,
        reply: Result<GetTwoWayPegDataResponse, String>,
    |
        {
            &&& asks_for_peg_data(request, sidechain_id, start_block_hash, end_block_hash@)
            &&& #[trigger] call_ensures(rpc, (request,), reply)
            &&& outcomes_read(outcomes) == after_call(
                reply,
                |response: GetTwoWayPegDataResponse| outcomes_in(response),
            )
        };
    assert(call_ensures(rpc, (request,), reply));
}

} // verus!
