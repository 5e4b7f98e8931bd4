//! What a block producer adds to a block: `extraData` is stamped with the mainchain tip, so that
//! there is something to verify a BMM commitment against, and a withdrawal bundle is broadcast
//! when one fits.
//!
//! The broadcast is a best-effort side effect for the enforcer's benefit: whatever becomes of it,
//! the block is built. A bundle that was broadcast is recorded, and its requests are not selected
//! again.
//!
//! Deposits are credited by a system call (see [`crate::evm`]), not through a block's withdrawals,
//! so a producer leaves the withdrawals empty. [`crate::consensus`] asks for one withdrawal per
//! deposit nevertheless. Both stand: a block that is produced here passes that check where the
//! range that it covers holds no deposits, and fails it where there are some.

use vstd::prelude::*;

use crate::consensus::Withdrawal;
use crate::enforcer::error::{EnforcerError, EnforcerErrorView};
use crate::enforcer::messages::{
    asks_for_broadcast, tip_in, BroadcastWithdrawalBundleRequest, GetChainTipRequest,
    GetChainTipResponse,
};
use crate::enforcer::{after_call, EnforcerClient, WithdrawalBundleOutcome};
use crate::mainchain::main_hash_in;
use crate::withdrawal_bundle::in_flight::{
    lemma_resolve_keeps_eligibility, lemma_submit_excludes, InFlightBundles, InFlightView,
};
use crate::withdrawal_bundle::layout::{is_steady, lemma_reading_is_repeatable};
use crate::withdrawal_bundle::m6::{consensus_encoding, transaction_id, WithdrawalBundle};
use crate::withdrawal_bundle::queue::{
    may_read_queue, read_pending_withdrawals, readable, request_views, PendingWithdrawal,
    QueueError, RequestView,
};
use crate::withdrawal_bundle::ranking::{
    has_destination, is_payable, lemma_paid_index, lemma_paid_is_asked,
    lemma_selected_destinations, paid_indices, selected,
};
use crate::withdrawal_bundle::selection::{is_bundle_for, select_withdrawal_bundle};
use crate::words::saturate_u32;

verus! {

/// What became of the withdrawal bundle of a block.
#[derive(Debug, PartialEq, Eq)]
pub enum BundleReport<E> {
    /// The parent's state could not be loaded.
    StateUnavailable(E),
    /// The request queue could not be read.
    QueueUnreadable(QueueError<E>),
    /// There is nothing to pay.
    NothingToPay,
    /// The bundle was broadcast.
    Broadcast { m6id: [u8; 32], request_indices: Vec<u64>, outputs: usize },
    /// The bundle could not be broadcast.
    BroadcastFailed { m6id: [u8; 32], error: EnforcerError },
}

/// What goes into the next block.
#[derive(Debug, PartialEq, Eq)]
pub struct NextBlockContext<E> {
    /// The hash of the mainchain tip.
    pub extra_data: [u8; 32],
    /// Present and empty: the field has to be there, and nothing is withdrawn through it.
    pub withdrawals: Option<Vec<Withdrawal>>,
    pub bundle: BundleReport<E>,
}

/// What to do when a payload is asked for that has not been built yet.
#[derive(Debug, Clone, Copy, PartialEq, Eq, Structural)]
pub enum MissingPayloadBehaviour {
    /// Wait for the one that is being built.
    AwaitInProgress,
    /// Build an empty one in the meantime.
    RaceEmptyPayload,
}

/// The height of the block after `parent_number`, up to the largest `u32`.
pub open spec fn next_height(parent_number: u64) -> u32 {
    saturate_u32((parent_number + 1) as nat)
}

/// Those of `requests` that may be selected into a new bundle, given what is tracked.
pub open spec fn eligible(requests: Seq<RequestView>, state: InFlightView) -> Seq<RequestView> {
    requests.filter(|request: RequestView| state.is_eligible(request.index))
}

/// Whether `report` tells of the broadcast of `bundle`, to which `reply` was the answer.
pub open spec fn reports_broadcast<E>(
    report: BundleReport<E>,
    bundle: WithdrawalBundle,
    reply: Result<(), String>,
) -> bool {
    match reply {
        Ok(()) => report matches BundleReport::Broadcast { m6id, request_indices, outputs }
            && m6id@ == transaction_id(bundle.tx@) && request_indices@ == bundle.request_indices@
            && outputs == bundle.tx.output@.len(),
        Err(status) => report matches BundleReport::BroadcastFailed { m6id, error } && m6id@
            == transaction_id(bundle.tx@) && error@ == EnforcerErrorView::Grpc(status@),
    }
}

/// Whether `report` tells of the bundle for `requests`, which was broadcast through `rpc`.
pub open spec fn reports_bundle<E, B>(
    report: BundleReport<E>,
    requests: Seq<RequestView>,
    block_height: u32,
    sidechain_id: u32,
    rpc: B,
) -> bool where B: FnOnce(BroadcastWithdrawalBundleRequest) -> Result<(), String> {
    if selected(requests).len() == 0 {
        report is NothingToPay
    } else {
        exists|
            bundle: WithdrawalBundle,
            request: BroadcastWithdrawalBundleRequest,
            reply: Result<(), String>,
        |
            {
                &&& is_bundle_for(bundle, requests, block_height)
                &&& #[trigger] asks_for_broadcast(request, sidechain_id, bundle.tx)
                &&& #[trigger] call_ensures(rpc, (request,), reply)
                &&& #[trigger] reports_broadcast(report, bundle, reply)
            }
    }
}

/// Whether `report` tells of the bundle for those requests of the queue in `storage` that may be
/// selected, given what is tracked.
pub open spec fn reports_queue<E, S, B>(
    report: BundleReport<E>,
    storage: S,
    state: InFlightView,
    block_height: u32,
    sidechain_id: u32,
    rpc: B,
) -> bool where
    S: Fn([u8; 20], [u8; 32]) -> Result<Option<[u8; 32]>, E>,
    B: FnOnce(BroadcastWithdrawalBundleRequest) -> Result<(), String>,
 {
    exists|read: Result<Seq<RequestView>, QueueError<E>>| #[trigger]
        may_read_queue(storage, read) && match read {
            Err(error) => report == BundleReport::QueueUnreadable(error),
            Ok(requests) => reports_bundle(
                report,
                eligible(requests, state),
                block_height,
                sidechain_id,
                rpc,
            ),
        }
}

/// What is tracked after `report`: a bundle that was broadcast is, with its requests.
pub open spec fn tracked_after<E>(state: InFlightView, report: BundleReport<E>) -> InFlightView {
    match report {
        BundleReport::Broadcast { m6id, request_indices, .. } => state.submit(
            m6id@,
            request_indices@,
        ),
        _ => state,
    }
}

/// Whether `request` broadcasts the bundle for `requests`, of which there is one.
pub open spec fn is_due(
    request: BroadcastWithdrawalBundleRequest,
    requests: Seq<RequestView>,
    block_height: u32,
    sidechain_id: u32,
) -> bool {
    &&& selected(requests).len() > 0
    &&& exists|bundle: WithdrawalBundle| #[trigger]
        is_bundle_for(bundle, requests, block_height) && asks_for_broadcast(
            request,
            sidechain_id,
            bundle.tx,
        )
}

/// Whether `rpc` may be called to broadcast the bundle for what may be selected from the queue in
/// `storage`. It need not stand any other call.
pub open spec fn takes_due_bundle<E, S, B>(
    rpc: B,
    storage: S,
    state: InFlightView,
    block_height: u32,
    sidechain_id: u32,
) -> bool where
    S: Fn([u8; 20], [u8; 32]) -> Result<Option<[u8; 32]>, E>,
    B: FnOnce(BroadcastWithdrawalBundleRequest) -> Result<(), String>,
 {
    forall|request: BroadcastWithdrawalBundleRequest, requests: Seq<RequestView>| #[trigger]
        may_read_queue(storage, Ok::<Seq<RequestView>, QueueError<E>>(requests)) && #[trigger]
        is_due(request, eligible(requests, state), block_height, sidechain_id)
            ==> call_requires(rpc, (request,))
}

/// Whether `rpc` may answer with a mainchain tip.
pub open spec fn may_give_tip<T>(rpc: T) -> bool where
    T: FnOnce(GetChainTipRequest) -> Result<GetChainTipResponse, String>,
 {
    exists|reply: Result<GetChainTipResponse, String>| #[trigger]
        call_ensures(rpc, (GetChainTipRequest {  },), reply) && after_call(
            reply,
            |response: GetChainTipResponse| tip_in(response),
        ) is Ok
}

/// What goes into the block after `parent_hash`, whose number is `parent_number`, given what is
/// tracked.
pub open spec fn is_next_context<T, O, S, B, E>(
    context: Result<NextBlockContext<E>, EnforcerError>,
    tip_rpc: T,
    state_at: O,
    broadcast_rpc: B,
    parent_hash: [u8; 32],
    parent_number: u64,
    state: InFlightView,
    sidechain_id: u32,
) -> bool where
    T: FnOnce(GetChainTipRequest) -> Result<GetChainTipResponse, String>,
    O: FnOnce([u8; 32]) -> Result<S, E>,
    S: Fn([u8; 20], [u8; 32]) -> Result<Option<[u8; 32]>, E>,
    B: FnOnce(BroadcastWithdrawalBundleRequest) -> Result<(), String>,
 {
    &&& exists|reply: Result<GetChainTipResponse, String>|
        {
            &&& #[trigger] call_ensures(tip_rpc, (GetChainTipRequest {  },), reply)
            &&& match after_call(
                reply,
                |response: GetChainTipResponse| tip_in(response),
            ) {
                Err(error) => context matches Err(e) && e@ == error,
                Ok(tip) => {
                    &&& context matches Ok(context)
                    &&& context.extra_data@ == tip
                    &&& main_hash_in(context.extra_data@) == Some(tip)
                    &&& context.withdrawals matches Some(withdrawals)
                    &&& withdrawals@.len() == 0
                },
            }
        }
    &&& context matches Ok(context) ==> exists|opened: Result<S, E>|
        {
            &&& #[trigger] call_ensures(state_at, (parent_hash,), opened)
            &&& match opened {
                Err(error) => context.bundle == BundleReport::<E>::StateUnavailable(error),
                Ok(storage) => reports_queue(
                    context.bundle,
                    storage,
                    state,
                    next_height(parent_number),
                    sidechain_id,
                    broadcast_rpc,
                ),
            }
        }
}

proof fn lemma_filter_push(
    requests: Seq<RequestView>,
    request: RequestView,
    keep: spec_fn(RequestView) -> bool,
)
    ensures
        requests.push(request).filter(keep) == if keep(request) {
            requests.filter(keep).push(request)
        } else {
            requests.filter(keep)
        },
{
    reveal(Seq::filter);
    assert(requests.push(request).drop_last() =~= requests);
}

/// Those of `pending` that may be selected into a new bundle, in order.
pub fn eligible_withdrawals(pending: &[PendingWithdrawal], in_flight: &InFlightBundles) -> (kept:
    Vec<PendingWithdrawal>)
    requires
        in_flight.wf(),
    ensures
        request_views(kept@) == eligible(request_views(pending@), in_flight@),
{
    let ghost requests = request_views(pending@);
    let ghost keep = |request: RequestView| in_flight@.is_eligible(request.index);
    let mut kept: Vec<PendingWithdrawal> = Vec::new();
    let mut i: usize = 0;
    proof {
        reveal(Seq::filter);
        assert(requests.take(0) =~= Seq::empty());
        assert(request_views(kept@) =~= requests.take(0).filter(keep));
    }
    while i < pending.len()
        invariant
            i <= pending@.len(),
            in_flight.wf(),
            requests == request_views(pending@),
            keep == (|request: RequestView| in_flight@.is_eligible(request.index)),
            request_views(kept@) == requests.take(i as int).filter(keep),
        decreases pending@.len() - i,
    {
        let ghost before = kept@;
        proof {
            assert(requests.take(i + 1) =~= requests.take(i as int).push(requests[i as int]));
            lemma_filter_push(requests.take(i as int), requests[i as int], keep);
        }
        if in_flight.is_eligible(pending[i].index) {
            kept.push(pending[i].clone());
            proof {
                assert(request_views(kept@) =~= request_views(before).push(requests[i as int]));
            }
        }
        i = i + 1;
    }
    proof {
        assert(requests.take(i as int) =~= requests);
    }
    kept
}

/// Builds blocks for sidechain `sidechain_id`.
#[derive(Debug, Clone)]
pub struct Bip300301PayloadBuilder {
    pub enforcer: EnforcerClient,
    pub sidechain_id: u32,
    /// Whether to wait for a payload that is being built rather than to race it.
    pub await_payload_on_missing: bool,
}

impl Bip300301PayloadBuilder {
    pub fn new(
        enforcer: EnforcerClient,
        sidechain_id: u32,
        await_payload_on_missing: bool,
    ) -> (builder: Self)
        ensures
            builder.enforcer == enforcer,
            builder.sidechain_id == sidechain_id,
            builder.await_payload_on_missing == await_payload_on_missing,
    {
        Bip300301PayloadBuilder { enforcer, sidechain_id, await_payload_on_missing }
    }

    /// What to do when a payload is asked for that has not been built yet.
    pub fn on_missing_payload(&self) -> (behaviour: MissingPayloadBehaviour)
        ensures
            behaviour == if self.await_payload_on_missing {
                MissingPayloadBehaviour::AwaitInProgress
            } else {
                MissingPayloadBehaviour::RaceEmptyPayload
            },
    {
        if self.await_payload_on_missing {
            MissingPayloadBehaviour::AwaitInProgress
        } else {
            MissingPayloadBehaviour::RaceEmptyPayload
        }
    }

    /// Fetches the current mainchain tip, and returns what goes into the block after
    /// `parent_hash`, with `extraData` set to the tip.
    ///
    /// Also selects a BIP300 withdrawal bundle from `parent_hash`'s state (if one fits) and
    /// broadcasts it to the enforcer, as [`Self::broadcast_next_bundle`] does. `tip_rpc` and
    /// `broadcast_rpc` are the remote calls; `state_at` gives the storage after the block with a
    /// given hash.
    pub fn next_block_context<T, O, S, B, E>(
        &self,
        in_flight: &mut InFlightBundles,
        tip_rpc: T,
        state_at: O,
        broadcast_rpc: B,
        parent_hash: [u8; 32],
        parent_number: u64,
    ) -> (context: Result<NextBlockContext<E>, EnforcerError>) where
        T: FnOnce(GetChainTipRequest) -> Result<GetChainTipResponse, String>,
        O: FnOnce([u8; 32]) -> Result<S, E>,
        S: Fn([u8; 20], [u8; 32]) -> Result<Option<[u8; 32]>, E>,
        B: FnOnce(BroadcastWithdrawalBundleRequest) -> Result<(), String>,

        requires
            old(in_flight).wf(),
            call_requires(tip_rpc, (GetChainTipRequest {  },)),
            may_give_tip(tip_rpc) ==> call_requires(state_at, (parent_hash,)),
            forall|storage: S|
                may_give_tip(tip_rpc) && #[trigger] call_ensures(
                    state_at,
                    (parent_hash,),
                    Ok(storage),
                ) ==> {
                    &&& readable(storage)
                    &&& takes_due_bundle(
                        broadcast_rpc,
                        storage,
                        old(in_flight)@,
                        next_height(parent_number),
                        self.sidechain_id,
                    )
                },
        ensures
            is_next_context(
                context,
                tip_rpc,
                state_at,
                broadcast_rpc,
                parent_hash,
                parent_number,
                old(in_flight)@,
                self.sidechain_id,
            ),
            final(in_flight).wf(),
            final(in_flight)@ == match context {
                Ok(context) => tracked_after(old(in_flight)@, context.bundle),
                Err(_) => old(in_flight)@,
            },
    {
        let extra_data = match self.enforcer.chain_tip(tip_rpc) {
            Ok(tip) => tip,
            Err(error) => {
                return Err(error);
            },
        };
        proof {
            assert(may_give_tip(tip_rpc));
        }
        let withdrawals: Option<Vec<Withdrawal>> = Some(Vec::new());
        let bundle = match state_at(parent_hash) {
            Err(error) => BundleReport::StateUnavailable(error),
            Ok(storage) => self.broadcast_next_bundle(
                in_flight,
                &storage,
                broadcast_rpc,
                parent_number,
            ),
        };
        Ok(NextBlockContext { extra_data, withdrawals, bundle })
    }

    /// Selects a bundle from the queue in `storage`, and broadcasts it if there is one.
    ///
    /// Requests of a bundle that `in_flight` tracks, and those that it holds to be finalized, are
    /// passed over. A bundle that was broadcast is recorded in `in_flight`; otherwise nothing
    /// changes there, so that what could not be broadcast is tried again.
    pub fn broadcast_next_bundle<S, B, E>(
        &self,
        in_flight: &mut InFlightBundles,
        storage: &S,
        broadcast_rpc: B,
        parent_number: u64,
    ) -> (report: BundleReport<E>) where
        S: Fn([u8; 20], [u8; 32]) -> Result<Option<[u8; 32]>, E>,
        B: FnOnce(BroadcastWithdrawalBundleRequest) -> Result<(), String>,

        requires
            old(in_flight).wf(),
            readable(*storage),
            takes_due_bundle(
                broadcast_rpc,
                *storage,
                old(in_flight)@,
                next_height(parent_number),
                self.sidechain_id,
            ),
        ensures
            reports_queue(
                report,
                *storage,
                old(in_flight)@,
                next_height(parent_number),
                self.sidechain_id,
                broadcast_rpc,
            ),
            final(in_flight).wf(),
            final(in_flight)@ == tracked_after(old(in_flight)@, report),
    {
        let pending = match read_pending_withdrawals(storage) {
            Ok(pending) => pending,
            Err(error) => {
                return BundleReport::QueueUnreadable(error);
            },
        };
        let ghost read = Ok::<Seq<RequestView>, QueueError<E>>(request_views(pending@));
        let candidates = eligible_withdrawals(pending.as_slice(), in_flight);
        let ghost requests = eligible(request_views(pending@), in_flight@);
        proof {
            assert(may_read_queue(*storage, read));
        }
        let next_number: u64 = parent_number.saturating_add(1);
        let next_block_number: u32 = if next_number > u32::MAX as u64 {
            u32::MAX
        } else {
            next_number as u32
        };
        let bundle = match select_withdrawal_bundle(candidates.as_slice(), next_block_number) {
            Some(bundle) => bundle,
            None => {
                return BundleReport::NothingToPay;
            },
        };
        proof {
            assert forall|request: BroadcastWithdrawalBundleRequest|
                asks_for_broadcast(request, self.sidechain_id, bundle.tx) implies #[trigger]
                call_requires(broadcast_rpc, (request,)) by {
                assert(is_bundle_for(bundle, requests, next_block_number));
                assert(is_due(request, requests, next_block_number, self.sidechain_id));
            }
        }
        let m6id = bundle.m6id();
        let outputs: usize = bundle.tx.output.len();
        let sent = self.enforcer.broadcast_withdrawal_bundle(
            broadcast_rpc,
            self.sidechain_id,
            &bundle.tx,
        );
        let ghost proposed = bundle;
        let report = match sent {
            Ok(()) => {
                let request_indices = bundle.request_indices;
                let recorded = request_indices.clone();
                proof {
                    assert(recorded@ =~= request_indices@);
                }
                in_flight.record_submitted(m6id, recorded);
                BundleReport::Broadcast { m6id, request_indices, outputs }
            },
            Err(error) => BundleReport::BroadcastFailed { m6id, error },
        };
        proof {
            let (request, reply) = choose|
                request: BroadcastWithdrawalBundleRequest,
                reply: Result<(), String>,
            |
                {
                    &&& asks_for_broadcast(request, self.sidechain_id, proposed.tx)
                    &&& #[trigger] call_ensures(broadcast_rpc, (request,), reply)
                    &&& match reply {
                        Ok(()) => sent is Ok,
                        Err(status) => sent matches Err(error) && error@
                            == EnforcerErrorView::Grpc(status@),
                    }
                };
            assert(reports_broadcast(report, proposed, reply));
            assert(reports_bundle(
                report,
                requests,
                next_block_number,
                self.sidechain_id,
                broadcast_rpc,
            ));
        }
        report
    }
}

/// Whether one bundle pays every destination of `requests` that can be paid at all.
pub open spec fn pays_all_payable(requests: Seq<RequestView>) -> bool {
    forall|destination: Seq<u8>| #[trigger]
        has_destination(requests, destination) && is_payable(destination) ==> selected(
            requests,
        ).contains(destination)
}

/// A request is a candidate for a bundle if and only if it is in the queue and eligible.
pub proof fn lemma_candidates(
    requests: Seq<RequestView>,
    state: InFlightView,
    request: RequestView,
)
    ensures
        eligible(requests, state).contains(request) <==> requests.contains(request)
            && state.is_eligible(request.index),
{
    let keep = |request: RequestView| state.is_eligible(request.index);
    let candidates = requests.filter(keep);
    if candidates.contains(request) {
        requests.lemma_filter_contains_rev(keep, request);
        let i = choose|i: int| 0 <= i < candidates.len() && candidates[i] == request;
        requests.lemma_filter_pred(keep, i);
    }
    if requests.contains(request) && keep(request) {
        let i = choose|i: int| 0 <= i < requests.len() && requests[i] == request;
        requests.lemma_filter_contains(keep, i);
    }
}

/// The requests of a bundle that was broadcast are in no later bundle, whatever the queue holds by
/// then and whatever the outcomes are.
pub proof fn lemma_not_selected_again(
    state: InFlightView,
    m6id: Seq<u8>,
    request_indices: Seq<u64>,
    outcomes: Seq<WithdrawalBundleOutcome>,
    requests: Seq<RequestView>,
    later: WithdrawalBundle,
    block_height: u32,
    index: u64,
)
    requires
        request_indices.contains(index),
        is_bundle_for(
            later,
            eligible(requests, state.submit(m6id, request_indices).resolve(outcomes)),
            block_height,
        ),
    ensures
        !later.request_indices@.contains(index),
{
    let submitted = state.submit(m6id, request_indices);
    let after = submitted.resolve(outcomes);
    let candidates = eligible(requests, after);
    assert(submitted.pending.dom().contains(m6id));
    assert(!submitted.is_eligible(index));
    lemma_resolve_keeps_eligibility(submitted, outcomes, index);
    if later.request_indices@.contains(index) {
        later.request_indices@.to_multiset_ensures();
        assert(paid_indices(candidates, selected(candidates)).contains(index));
        lemma_paid_is_asked(candidates, selected(candidates), index);
        let i = choose|i: int|
            0 <= i < candidates.len() && (#[trigger] candidates[i]).index == index;
        assert(candidates.contains(candidates[i]));
        lemma_candidates(requests, after, candidates[i]);
    }
}

/// Once a bundle has been recorded that pays every destination that can be paid, nothing is left to
/// select from the same requests, whatever the outcomes are.
pub proof fn lemma_nothing_left_to_pay(
    requests: Seq<RequestView>,
    state: InFlightView,
    bundle: WithdrawalBundle,
    block_height: u32,
    outcomes: Seq<WithdrawalBundleOutcome>,
)
    requires
        is_bundle_for(bundle, eligible(requests, state), block_height),
        !state.pending.dom().contains(transaction_id(bundle.tx@)),
        pays_all_payable(eligible(requests, state)),
    ensures
        selected(
            eligible(
                requests,
                state.submit(transaction_id(bundle.tx@), bundle.request_indices@).resolve(outcomes),
            ),
        ).len() == 0,
{
    let indices = bundle.request_indices@;
    let submitted = state.submit(transaction_id(bundle.tx@), indices);
    let after = submitted.resolve(outcomes);
    let first = eligible(requests, state);
    let second = eligible(requests, after);
    if selected(second).len() > 0 {
        let destination = selected(second)[0];
        assert(selected(second).contains(destination));
        lemma_selected_destinations(second);
        assert(has_destination(second, destination));
        let i = choose|i: int|
            0 <= i < second.len() && (#[trigger] second[i]).btc_destination == destination;
        let request = second[i];
        assert(second.contains(request));
        lemma_candidates(requests, after, request);
        lemma_resolve_keeps_eligibility(submitted, outcomes, request.index);
        lemma_submit_excludes(state, transaction_id(bundle.tx@), indices, request.index);
        lemma_candidates(requests, state, request);
        let k = choose|k: int| 0 <= k < first.len() && first[k] == request;
        assert(first[k].btc_destination == destination);
        assert(has_destination(first, destination));
        lemma_paid_index(first, selected(first), k);
        indices.to_multiset_ensures();
        assert(indices.contains(request.index));
    }
}

/// A second call on the same queue, at whatever height and whatever the outcomes in between,
/// reports that there is nothing to pay, if the first call broadcast a bundle that pays every
/// destination that can be paid.
pub proof fn lemma_second_call_pays_nothing<E, S, A, B>(
    storage: S,
    requests: Seq<RequestView>,
    state: InFlightView,
    first: BundleReport<E>,
    first_height: u32,
    first_rpc: A,
    outcomes: Seq<WithdrawalBundleOutcome>,
    second: BundleReport<E>,
    second_height: u32,
    second_rpc: B,
    sidechain_id: u32,
) where
    S: Fn([u8; 20], [u8; 32]) -> Result<Option<[u8; 32]>, E>,
    A: FnOnce(BroadcastWithdrawalBundleRequest) -> Result<(), String>,
    B: FnOnce(BroadcastWithdrawalBundleRequest) -> Result<(), String>,

    requires
        is_steady(storage),
        may_read_queue(storage, Ok::<Seq<RequestView>, QueueError<E>>(requests)),
        pays_all_payable(eligible(requests, state)),
        first matches BundleReport::Broadcast { m6id, .. } && !state.pending.dom().contains(m6id@),
        reports_queue(first, storage, state, first_height, sidechain_id, first_rpc),
        reports_queue(
            second,
            storage,
            tracked_after(state, first).resolve(outcomes),
            second_height,
            sidechain_id,
            second_rpc,
        ),
    ensures
        second is NothingToPay,
{
    let after = tracked_after(state, first).resolve(outcomes);
    assert forall|read: Result<Seq<RequestView>, QueueError<E>>| #[trigger]
        may_read_queue(storage, read) implies read == Ok::<Seq<RequestView>, QueueError<E>>(
        requests,
    ) by {
        lemma_reading_is_repeatable(storage, read, Ok(requests));
    }
    let candidates = eligible(requests, state);
    assert(reports_bundle(first, candidates, first_height, sidechain_id, first_rpc));
    let (bundle, request, reply) = choose|
        bundle: WithdrawalBundle,
        request: BroadcastWithdrawalBundleRequest,
        reply: Result<(), String>,
    |
        {
            &&& is_bundle_for(bundle, candidates, first_height)
            &&& #[trigger] asks_for_broadcast(request, sidechain_id, bundle.tx)
            &&& #[trigger] call_ensures(first_rpc, (request,), reply)
            &&& #[trigger] reports_broadcast(first, bundle, reply)
        };
    lemma_nothing_left_to_pay(requests, state, bundle, first_height, outcomes);
    assert(reports_bundle(
        second,
        eligible(requests, after),
        second_height,
        sidechain_id,
        second_rpc,
    ));
}

/// A bundle is proposed for the block after the parent, at the largest height that 32 bits can hold
/// where that is larger still.
pub proof fn lemma_next_height(parent_number: u64)
    ensures
        parent_number < 0xFFFF_FFFF ==> next_height(parent_number) == parent_number + 1,
        parent_number >= 0xFFFF_FFFF ==> next_height(parent_number) == 0xFFFF_FFFF,
{
}

/// What a report says of a bundle is what happened: there is none if and only if nothing is
/// selected; what was sent is the serialization of the very transaction whose id, requests and
/// outputs are reported, for this sidechain; and it is reported as broadcast if and only if the
/// call succeeded.
pub proof fn lemma_report_is_true<E, B>(
    report: BundleReport<E>,
    requests: Seq<RequestView>,
    block_height: u32,
    sidechain_id: u32,
    rpc: B,
) where B: FnOnce(BroadcastWithdrawalBundleRequest) -> Result<(), String>
    requires
        reports_bundle(report, requests, block_height, sidechain_id, rpc),
    ensures
        report is NothingToPay <==> selected(requests).len() == 0,
        report is NothingToPay || report is Broadcast || report is BroadcastFailed,
        report matches BundleReport::Broadcast { m6id, request_indices, outputs } ==> exists|
            bundle: WithdrawalBundle,
            request: BroadcastWithdrawalBundleRequest,
        |
            {
                &&& #[trigger] is_bundle_for(bundle, requests, block_height)
                &&& request.sidechain_id == Some(sidechain_id)
                &&& request.transaction matches Some(bytes) && bytes@ == consensus_encoding(
                    bundle.tx@,
                )
                &&& #[trigger] call_ensures(rpc, (request,), Ok(()))
                &&& m6id@ == transaction_id(bundle.tx@)
                &&& request_indices@ == bundle.request_indices@
                &&& outputs == bundle.tx.output@.len()
            },
        report matches BundleReport::BroadcastFailed { m6id, error } ==> exists|
            bundle: WithdrawalBundle,
            request: BroadcastWithdrawalBundleRequest,
            status: String,
        |
            {
                &&& #[trigger] is_bundle_for(bundle, requests, block_height)
                &&& request.sidechain_id == Some(sidechain_id)
                &&& request.transaction matches Some(bytes) && bytes@ == consensus_encoding(
                    bundle.tx@,
                )
                &&& #[trigger] call_ensures(rpc, (request,), Err(status))
                &&& m6id@ == transaction_id(bundle.tx@)
                &&& error@ == EnforcerErrorView::Grpc(status@)
            },
{
    if selected(requests).len() > 0 {
        let (bundle, request, reply) = choose|
            bundle: WithdrawalBundle,
            request: BroadcastWithdrawalBundleRequest,
            reply: Result<(), String>,
        |
            {
                &&& is_bundle_for(bundle, requests, block_height)
                &&& #[trigger] asks_for_broadcast(request, sidechain_id, bundle.tx)
                &&& #[trigger] call_ensures(rpc, (request,), reply)
                &&& #[trigger] reports_broadcast(report, bundle, reply)
            };
        match reply {
            Ok(nothing) => {
                assert(nothing == ());
                assert(call_ensures(rpc, (request,), Ok(())));
            },
            Err(status) => {
                assert(call_ensures(rpc, (request,), Err(status)));
            },
        }
    }
}

/// After a broadcast the bundle is tracked under its id with its requests, beside whatever was
/// tracked before; after any other report nothing has changed.
pub proof fn lemma_broadcast_is_tracked<E>(
    state: InFlightView,
    report: BundleReport<E>,
    other: Seq<u8>,
)
    ensures
        report matches BundleReport::Broadcast { m6id, request_indices, .. } ==> {
            let after = tracked_after(state, report);
            &&& after.pending.dom().contains(m6id@)
            &&& after.pending[m6id@] == request_indices@
            &&& after.finalized == state.finalized
            &&& other != m6id@ ==> after.pending.dom().contains(other)
                == state.pending.dom().contains(other)
            &&& other != m6id@ && state.pending.dom().contains(other) ==> after.pending[other]
                == state.pending[other]
        },
        !(report is Broadcast) ==> tracked_after(state, report) == state,
{
}

/// Only a queue that cannot be read is reported as such, with the error that it gave.
pub proof fn lemma_queue_report<E, S, B>(
    report: BundleReport<E>,
    storage: S,
    state: InFlightView,
    block_height: u32,
    sidechain_id: u32,
    rpc: B,
) where
    S: Fn([u8; 20], [u8; 32]) -> Result<Option<[u8; 32]>, E>,
    B: FnOnce(BroadcastWithdrawalBundleRequest) -> Result<(), String>,

    requires
        reports_queue(report, storage, state, block_height, sidechain_id, rpc),
    ensures
        !(report is StateUnavailable),
        report matches BundleReport::QueueUnreadable(error) ==> may_read_queue(
            storage,
            Err::<Seq<RequestView>, QueueError<E>>(error),
        ),
        !(report is QueueUnreadable) ==> exists|requests: Seq<RequestView>|
            {
                &&& #[trigger] may_read_queue(
                    storage,
                    Ok::<Seq<RequestView>, QueueError<E>>(requests),
                )
                &&& reports_bundle(
                    report,
                    requests.filter(|request: RequestView| state.is_eligible(request.index)),
                    block_height,
                    sidechain_id,
                    rpc,
                )
            },
{
    let read = choose|read: Result<Seq<RequestView>, QueueError<E>>| #[trigger]
        may_read_queue(storage, read) && match read {
            Err(error) => report == BundleReport::QueueUnreadable(error),
            Ok(requests) => reports_bundle(
                report,
                eligible(requests, state),
                block_height,
                sidechain_id,
                rpc,
            ),
        };
    if let Ok(requests) = read {
        lemma_report_is_true(report, eligible(requests, state), block_height, sidechain_id, rpc);
    }
}

/// A block is built on the tip that the enforcer replied with, byte for byte, without withdrawals,
/// and with the bundle that the state after its parent holds; it is not built only where the
/// enforcer named no tip, and then for the reason that it gave.
pub proof fn lemma_block_is_built_on_the_tip<T, O, S, B, E>(
    context: Result<NextBlockContext<E>, EnforcerError>,
    tip_rpc: T,
    state_at: O,
    broadcast_rpc: B,
    parent_hash: [u8; 32],
    parent_number: u64,
    block_height: u32,
    state: InFlightView,
    sidechain_id: u32,
) where
    T: FnOnce(GetChainTipRequest) -> Result<GetChainTipResponse, String>,
    O: FnOnce([u8; 32]) -> Result<S, E>,
    S: Fn([u8; 20], [u8; 32]) -> Result<Option<[u8; 32]>, E>,
    B: FnOnce(BroadcastWithdrawalBundleRequest) -> Result<(), String>,

    requires
        is_next_context(
            context,
            tip_rpc,
            state_at,
            broadcast_rpc,
            parent_hash,
            parent_number,
            state,
            sidechain_id,
        ),
        parent_number < 0xFFFF_FFFF ==> block_height == parent_number + 1,
        parent_number >= 0xFFFF_FFFF ==> block_height == 0xFFFF_FFFF,
    ensures
        context matches Ok(context) ==> {
            &&& exists|response: GetChainTipResponse| #[trigger]
                call_ensures(tip_rpc, (GetChainTipRequest {  },), Ok(response)) && tip_in(response)
                    == Ok::<Seq<u8>, EnforcerErrorView>(context.extra_data@)
            &&& context.withdrawals matches Some(withdrawals) && withdrawals@.len() == 0
            &&& context.bundle matches BundleReport::StateUnavailable(error) ==> call_ensures(
                state_at,
                (parent_hash,),
                Err(error),
            )
            &&& !(context.bundle is StateUnavailable) ==> exists|storage: S| #[trigger]
                call_ensures(state_at, (parent_hash,), Ok(storage)) && reports_queue(
                    context.bundle,
                    storage,
                    state,
                    block_height,
                    sidechain_id,
                    broadcast_rpc,
                )
        },
        context matches Err(error) ==> exists|reply: Result<GetChainTipResponse, String>| #[trigger]
            call_ensures(tip_rpc, (GetChainTipRequest {  },), reply) && match reply {
                Ok(response) => tip_in(response) == Err::<Seq<u8>, _>(error@),
                Err(status) => error@ == EnforcerErrorView::Grpc(status@),
            },
        (forall|reply: Result<GetChainTipResponse, String>| #[trigger]
            call_ensures(tip_rpc, (GetChainTipRequest {  },), reply) ==> (reply matches Ok(response)
                && tip_in(response) is Ok)) ==> context is Ok,
{
    let reply = choose|reply: Result<GetChainTipResponse, String>|
        {
            &&& #[trigger] call_ensures(tip_rpc, (GetChainTipRequest {  },), reply)
            &&& match after_call(reply, |response: GetChainTipResponse| tip_in(response)) {
                Err(error) => context matches Err(e) && e@ == error,
                Ok(tip) => {
                    &&& context matches Ok(context)
                    &&& context.extra_data@ == tip
                    &&& main_hash_in(context.extra_data@) == Some(tip)
                    &&& context.withdrawals matches Some(withdrawals)
                    &&& withdrawals@.len() == 0
                },
            }
        };
    if let Ok(response) = reply {
        assert(call_ensures(tip_rpc, (GetChainTipRequest {  },), Ok(response)));
    }
    if let Ok(context) = context {
        let opened = choose|opened: Result<S, E>|
            {
                &&& #[trigger] call_ensures(state_at, (parent_hash,), opened)
                &&& match opened {
                    Err(error) => context.bundle == BundleReport::<E>::StateUnavailable(error),
                    Ok(storage) => reports_queue(
                        context.bundle,
                        storage,
                        state,
                        block_height,
                        sidechain_id,
                        broadcast_rpc,
                    ),
                }
            };
        match opened {
            Ok(storage) => {
                assert(call_ensures(state_at, (parent_hash,), Ok(storage)));
                lemma_queue_report(
                    context.bundle,
                    storage,
                    state,
                    block_height,
                    sidechain_id,
                    broadcast_rpc,
                );
            },
            Err(error) => {
                assert(call_ensures(state_at, (parent_hash,), Err(error)));
            },
        }
    }
}

} // verus!
