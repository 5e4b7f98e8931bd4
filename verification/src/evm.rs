//! The system calls that every block makes before its transactions.
//!
//! Two contracts are told what happened on the mainchain: `DepositVault` is to credit the deposits
//! of the range that the block covers, and `WithdrawalRequestQueue` is to advance its withdrawal
//! bundles. Both calls follow from data that all nodes agree on, so building a block and
//! validating it make the same ones.
//!
//! [`PreExecution`] decides what is to be done next; its caller does it, and reports back.

use vstd::prelude::*;
use vstd::string::*;

use crate::consensus::no_parent_text;
use crate::deposit_vault::{
    credit_call, credit_selector, decode_credit_call, deposits_calldata, fits_in_memory,
    lemma_credit_call_places, lemma_credit_call_roundtrip, DEPOSIT_VAULT_ADDRESS,
};
use crate::enforcer::{deposit_views, Deposit, WithdrawalBundleOutcome};
use crate::hash::keccak;
use crate::mainchain::{
    covered_range, covers, lemma_range_is_determined, main_hash_in, MainchainRange,
};
use crate::text::{lower_hex, print_hash};
use crate::withdrawal_bundle::queue::{PendingWithdrawal, WITHDRAWAL_REQUEST_QUEUE_ADDRESS};
use crate::words::saturate_u32;

verus! {

/// The address that system calls come from.
pub const SYSTEM_ADDRESS: [u8; 20] = [
    0xff, 0xff, 0xff, 0xff, 0xff, 0xff, 0xff, 0xff, 0xff, 0xff, 0xff, 0xff, 0xff, 0xff, 0xff, 0xff,
    0xff, 0xff, 0xff, 0xfe,
];

/// A call that the protocol itself makes.
#[derive(Debug, Clone, PartialEq, Eq)]
pub struct SystemCall {
    pub caller: [u8; 20],
    pub contract: [u8; 20],
    pub calldata: Vec<u8>,
}

/// Why the changes before execution could not be made.
#[derive(Debug, Clone, PartialEq, Eq)]
pub enum ExecutionError<E> {
    /// The node or the enforcer could not answer.
    Other(E),
    /// The block breaks a rule, or a system call failed, as told here.
    Message(String),
}

/// What is to be done next.
#[derive(Debug, PartialEq, Eq)]
pub enum Action<E> {
    /// Look up the `extraData` of the header with this hash.
    LoadParent([u8; 32]),
    /// Ask the enforcer for the deposits in this range.
    FetchDeposits(MainchainRange),
    /// Make this call and commit its effects.
    Call(SystemCall),
    /// Read every withdrawal request from the state after the block with this hash.
    LoadRequests([u8; 32]),
    /// Ask the enforcer for the withdrawal-bundle outcomes in this range.
    FetchOutcomes(MainchainRange),
    /// Compute what to report to the queue at this height, from every request and every outcome
    /// that was read.
    ComputeLifecycle {
        requests: Vec<PendingWithdrawal>,
        outcomes: Vec<WithdrawalBundleOutcome>,
        height: u32,
    },
    /// Nothing is left to do.
    Finish(Result<(), ExecutionError<E>>),
}

/// What came of the last action.
#[derive(Debug, PartialEq, Eq)]
pub enum Event<E> {
    Parent(Result<Option<Vec<u8>>, E>),
    Deposits(Result<Vec<Deposit>, E>),
    /// The call was made and committed, or failed as told here.
    Called(Result<(), String>),
    Requests(Result<Vec<PendingWithdrawal>, E>),
    Outcomes(Result<Vec<WithdrawalBundleOutcome>, E>),
    /// The call data of the report to the queue, if there is something to report.
    Lifecycle(Option<Vec<u8>>),
}

/// How far the changes before execution have come.
#[derive(Debug, Clone, PartialEq, Eq)]
pub enum Stage {
    AwaitingParent,
    AwaitingDeposits(MainchainRange),
    AwaitingVaultCall(MainchainRange),
    AwaitingRequests(MainchainRange),
    /// The requests are kept until the outcomes are there too.
    AwaitingOutcomes(MainchainRange, Vec<PendingWithdrawal>),
    AwaitingLifecycle,
    AwaitingQueueCall,
    Finished,
}

/// The changes that a block makes before its transactions.
#[derive(Debug, Clone, PartialEq, Eq)]
pub struct PreExecution {
    pub block_number: u64,
    pub parent_hash: [u8; 32],
    pub extra_data: Vec<u8>,
    pub stage: Stage,
}

/// Whether `event` is what `stage` waits for.
pub open spec fn is_awaited<E>(stage: Stage, event: Event<E>) -> bool {
    match stage {
        Stage::AwaitingParent => event is Parent,
        Stage::AwaitingDeposits(_) => event matches Event::Deposits(deposits) && (
        deposits matches Ok(deposits) ==> fits_in_memory(deposits@.len())),
        Stage::AwaitingVaultCall(_) => event is Called,
        Stage::AwaitingRequests(_) => event is Requests,
        Stage::AwaitingOutcomes(..) => event is Outcomes,
        Stage::AwaitingLifecycle => event is Lifecycle,
        Stage::AwaitingQueueCall => event is Called,
        Stage::Finished => false,
    }
}

/// Whether `action` is the system call to `contract` with `calldata`.
pub open spec fn is_system_call<E>(
    action: Action<E>,
    contract: [u8; 20],
    calldata: Seq<u8>,
) -> bool {
    action matches Action::Call(call) && call.caller == SYSTEM_ADDRESS && call.contract == contract
        && call.calldata@ == calldata
}

/// Whether everything ends here with a message.
pub open spec fn fails_with<E>(stage: Stage, action: Action<E>, text: Seq<char>) -> bool {
    &&& stage == Stage::Finished
    &&& action matches Action::Finish(Err(ExecutionError::Message(message))) && message@ == text
}

/// What follows when, in the given state, `event` comes.
pub open spec fn follows<E>(
    state: PreExecution,
    event: Event<E>,
    stage: Stage,
    action: Action<E>,
) -> bool {
    match (state.stage, event) {
        (_, Event::Parent(Err(error)))
        | (_, Event::Deposits(Err(error)))
        | (_, Event::Requests(Err(error)))
        | (_, Event::Outcomes(Err(error))) => {
            &&& stage == Stage::Finished
            &&& action == Action::Finish(Err::<(), _>(ExecutionError::Other(error)))
        },
        (_, Event::Called(Err(text))) => fails_with(stage, action, text@),
        (Stage::AwaitingParent, Event::Parent(Ok(None))) => fails_with(
            stage,
            action,
            no_parent_text(state.parent_hash@),
        ),
        (Stage::AwaitingParent, Event::Parent(Ok(Some(parent)))) => if main_hash_in(
            state.extra_data@,
        ) is None {
            fails_with(stage, action, "block extraData must be exactly 32 bytes"@)
        } else {
            &&& action matches Action::FetchDeposits(range) && stage == Stage::AwaitingDeposits(
                range,
            ) && covers(range, parent@, state.extra_data@)
        },
        (Stage::AwaitingDeposits(range), Event::Deposits(Ok(deposits))) => if deposits@.len()
            == 0 {
            &&& stage == Stage::AwaitingRequests(range)
            &&& action == Action::<E>::LoadRequests(state.parent_hash)
        } else {
            &&& stage == Stage::AwaitingVaultCall(range)
            &&& credit_selector().len() == 4
            &&& is_system_call(
                action,
                DEPOSIT_VAULT_ADDRESS,
                credit_call(credit_selector(), deposit_views(deposits@)),
            )
        },
        (Stage::AwaitingVaultCall(range), Event::Called(Ok(()))) => {
            &&& stage == Stage::AwaitingRequests(range)
            &&& action == Action::<E>::LoadRequests(state.parent_hash)
        },
        (Stage::AwaitingRequests(range), Event::Requests(Ok(requests))) => {
            &&& stage == Stage::AwaitingOutcomes(range, requests)
            &&& action == Action::<E>::FetchOutcomes(range)
        },
        (Stage::AwaitingOutcomes(_, requests), Event::Outcomes(Ok(outcomes))) => {
            &&& stage == Stage::AwaitingLifecycle
            &&& action == Action::<E>::ComputeLifecycle {
                requests,
                outcomes,
                height: saturate_u32(state.block_number as nat),
            }
        },
        (Stage::AwaitingLifecycle, Event::Lifecycle(Some(calldata))) => {
            &&& stage == Stage::AwaitingQueueCall
            &&& is_system_call(action, WITHDRAWAL_REQUEST_QUEUE_ADDRESS, calldata@)
        },
        (Stage::AwaitingLifecycle, Event::Lifecycle(None))
        | (Stage::AwaitingQueueCall, Event::Called(Ok(()))) => {
            &&& stage == Stage::Finished
            &&& action == Action::<E>::Finish(Ok(()))
        },
        _ => false,
    }
}

/// Whether `action` comes first for the block of `state`: its parent is looked up, unless it is
/// genesis, for which nothing is to be done.
pub open spec fn begins<E>(state: PreExecution, action: Action<E>) -> bool {
    if state.block_number == 0 {
        state.stage == Stage::Finished && action == Action::<E>::Finish(Ok(()))
    } else {
        state.stage == Stage::AwaitingParent && action == Action::<E>::LoadParent(
            state.parent_hash,
        )
    }
}

impl PreExecution {
    /// Begins the changes of the block `block_number`. Genesis carries no BIP301 provenance and
    /// has no prior queue state to act on, so nothing is to be done for it.
    pub fn begin<E>(block_number: u64, parent_hash: [u8; 32], extra_data: Vec<u8>) -> (begun: (
        PreExecution,
        Action<E>,
    ))
        ensures
            begun.0.block_number == block_number,
            begun.0.parent_hash == parent_hash,
            begun.0.extra_data == extra_data,
            begins(begun.0, begun.1),
    {
        if block_number == 0 {
            (
                PreExecution { block_number, parent_hash, extra_data, stage: Stage::Finished },
                Action::Finish(Ok(())),
            )
        } else {
            (
                PreExecution {
                    block_number,
                    parent_hash,
                    extra_data,
                    stage: Stage::AwaitingParent,
                },
                Action::LoadParent(parent_hash),
            )
        }
    }

    /// Takes what came of the last action, and says what is to be done next.
    pub fn step<E>(&mut self, event: Event<E>) -> (action: Action<E>)
        requires
            is_awaited(old(self).stage, event),
        ensures
            follows(*old(self), event, final(self).stage, action),
            final(self).block_number == old(self).block_number,
            final(self).parent_hash == old(self).parent_hash,
            final(self).extra_data == old(self).extra_data,
    {
        let mut reached = Stage::Finished;
        core::mem::swap(&mut self.stage, &mut reached);
        let (stage, action) = self.decide(reached, event);
        self.stage = stage;
        action
    }

    /// The stage after `reached`, and what is to be done in it.
    fn decide<E>(&self, reached: Stage, event: Event<E>) -> (decision: (Stage, Action<E>))
        requires
            is_awaited(reached, event),
        ensures
            follows(
                (PreExecution { stage: reached, ..*self }),
                event,
                decision.0,
                decision.1,
            ),
    {
        match (reached, event) {
            (_, Event::Parent(Err(error)))
            | (_, Event::Deposits(Err(error)))
            | (_, Event::Requests(Err(error)))
            | (_, Event::Outcomes(Err(error))) => (
                Stage::Finished,
                Action::Finish(Err(ExecutionError::Other(error))),
            ),
            (_, Event::Called(Err(text))) => (
                Stage::Finished,
                Action::Finish(Err(ExecutionError::Message(text))),
            ),
            (Stage::AwaitingParent, Event::Parent(Ok(None))) => {
                let text = "parent header ".to_owned().concat(
                    print_hash(&self.parent_hash).as_str(),
                ).concat(" not found");
                (Stage::Finished, Action::Finish(Err(ExecutionError::Message(text))))
            },
            (Stage::AwaitingParent, Event::Parent(Ok(Some(parent)))) => match covered_range(
                &parent,
                &self.extra_data,
            ) {
                None => {
                    let text = "block extraData must be exactly 32 bytes".to_owned();
                    (Stage::Finished, Action::Finish(Err(ExecutionError::Message(text))))
                },
                Some(range) => (Stage::AwaitingDeposits(range), Action::FetchDeposits(range)),
            },
            (
                Stage::AwaitingDeposits(range),
                Event::Deposits(Ok(deposits)),
            ) => match deposits_calldata(deposits.as_slice()) {
                None => (Stage::AwaitingRequests(range), Action::LoadRequests(self.parent_hash)),
                Some(calldata) => (
                    Stage::AwaitingVaultCall(range),
                    Action::Call(
                        SystemCall {
                            caller: SYSTEM_ADDRESS,
                            contract: DEPOSIT_VAULT_ADDRESS,
                            calldata,
                        },
                    ),
                ),
            },
            (Stage::AwaitingVaultCall(range), Event::Called(Ok(()))) => (
                Stage::AwaitingRequests(range),
                Action::LoadRequests(self.parent_hash),
            ),
            (Stage::AwaitingRequests(range), Event::Requests(Ok(requests))) => (
                Stage::AwaitingOutcomes(range, requests),
                Action::FetchOutcomes(range),
            ),
            (Stage::AwaitingOutcomes(_, requests), Event::Outcomes(Ok(outcomes))) => {
                let height: u32 = if self.block_number > u32::MAX as u64 {
                    u32::MAX
                } else {
                    self.block_number as u32
                };
                (
                    Stage::AwaitingLifecycle,
                    Action::ComputeLifecycle { requests, outcomes, height },
                )
            },
            (Stage::AwaitingLifecycle, Event::Lifecycle(Some(calldata))) => (
                Stage::AwaitingQueueCall,
                Action::Call(
                    SystemCall {
                        caller: SYSTEM_ADDRESS,
                        contract: WITHDRAWAL_REQUEST_QUEUE_ADDRESS,
                        calldata,
                    },
                ),
            ),
            _ => (Stage::Finished, Action::Finish(Ok(()))),
        }
    }
}

/// How many steps at most lie behind a stage.
pub open spec fn progress(stage: Stage) -> nat {
    match stage {
        Stage::AwaitingParent => 0,
        Stage::AwaitingDeposits(_) => 1,
        Stage::AwaitingVaultCall(_) => 2,
        Stage::AwaitingRequests(_) => 3,
        Stage::AwaitingOutcomes(..) => 4,
        Stage::AwaitingLifecycle => 5,
        Stage::AwaitingQueueCall => 6,
        Stage::Finished => 7,
    }
}

/// The mainchain range that a stage is about.
pub open spec fn range_of(stage: Stage) -> Option<MainchainRange> {
    match stage {
        Stage::AwaitingDeposits(range)
        | Stage::AwaitingVaultCall(range)
        | Stage::AwaitingRequests(range)
        | Stage::AwaitingOutcomes(range, _) => Some(range),
        _ => None,
    }
}

/// Every step leads on, so that a block makes each of its calls at most once and comes to an end.
pub proof fn lemma_steps_lead_on<E>(
    state: PreExecution,
    event: Event<E>,
    stage: Stage,
    action: Action<E>,
)
    requires
        is_awaited(state.stage, event),
        follows(state, event, stage, action),
    ensures
        progress(state.stage) < progress(stage),
        stage == Stage::Finished <==> action is Finish,
{
}

/// System calls come from the system address only, and go to the deposit vault or to the request
/// queue only.
pub proof fn lemma_system_calls<E>(
    state: PreExecution,
    event: Event<E>,
    stage: Stage,
    action: Action<E>,
)
    requires
        is_awaited(state.stage, event),
        follows(state, event, stage, action),
    ensures
        action matches Action::Call(call) ==> {
            &&& call.caller == SYSTEM_ADDRESS
            &&& stage is AwaitingVaultCall && call.contract == DEPOSIT_VAULT_ADDRESS
                || stage is AwaitingQueueCall && call.contract == WITHDRAWAL_REQUEST_QUEUE_ADDRESS
        },
{
}

/// Deposits and bundle outcomes are taken from one and the same mainchain range.
pub proof fn lemma_one_range<E>(
    state: PreExecution,
    event: Event<E>,
    stage: Stage,
    action: Action<E>,
)
    requires
        is_awaited(state.stage, event),
        follows(state, event, stage, action),
    ensures
        range_of(state.stage) is Some && range_of(stage) is Some ==> range_of(stage) == range_of(
            state.stage,
        ),
        action matches Action::FetchDeposits(range) ==> range_of(stage) == Some(range),
        action matches Action::FetchOutcomes(range) ==> range_of(state.stage) == Some(range),
{
}

/// What is to be reported to the queue is computed from every request that was read and every
/// outcome that was fetched, with nothing left out and nothing added.
pub proof fn lemma_lifecycle_sees_everything<E>(
    state: PreExecution,
    requests: Vec<PendingWithdrawal>,
    stage: Stage,
    fetch: Action<E>,
    outcomes: Vec<WithdrawalBundleOutcome>,
    last_stage: Stage,
    compute: Action<E>,
)
    requires
        state.stage is AwaitingRequests,
        follows(state, Event::Requests(Ok::<_, E>(requests)), stage, fetch),
        follows(
            (PreExecution { stage, ..state }),
            Event::Outcomes(Ok::<_, E>(outcomes)),
            last_stage,
            compute,
        ),
    ensures
        fetch is FetchOutcomes,
        compute == (Action::<E>::ComputeLifecycle {
            requests,
            outcomes,
            height: saturate_u32(state.block_number as nat),
        }),
{
}

/// Whether two actions ask for the same thing.
pub open spec fn same_action<E>(a: Action<E>, b: Action<E>) -> bool {
    match (a, b) {
        (Action::Call(call_a), Action::Call(call_b)) => {
            &&& call_a.caller == call_b.caller
            &&& call_a.contract == call_b.contract
            &&& call_a.calldata@ == call_b.calldata@
        },
        (
            Action::Finish(Err(ExecutionError::Message(text_a))),
            Action::Finish(Err(ExecutionError::Message(text_b))),
        ) => text_a@ == text_b@,
        _ => a == b,
    }
}

/// Nodes that start from the same block and are told the same do the same: whether they build a
/// block or validate it, they make the same calls.
pub proof fn lemma_nodes_agree<E>(
    state: PreExecution,
    event: Event<E>,
    stage_a: Stage,
    action_a: Action<E>,
    stage_b: Stage,
    action_b: Action<E>,
)
    requires
        is_awaited(state.stage, event),
        follows(state, event, stage_a, action_a),
        follows(state, event, stage_b, action_b),
    ensures
        stage_a == stage_b,
        same_action(action_a, action_b),
{
    if let (
        Event::Parent(Ok(Some(parent))),
        Action::FetchDeposits(a),
        Action::FetchDeposits(b),
    ) = (event, action_a, action_b) {
        lemma_range_is_determined(a, b, parent@, state.extra_data@);
    }
}

/// Whatever is asked for, every answer to it is taken; of deposits, as many as a call can carry.
pub proof fn lemma_answers_are_awaited<E>(
    parent: Result<Option<Vec<u8>>, E>,
    deposits: Result<Vec<Deposit>, E>,
    called: Result<(), String>,
    requests: Result<Vec<PendingWithdrawal>, E>,
    outcomes: Result<Vec<WithdrawalBundleOutcome>, E>,
    lifecycle: Option<Vec<u8>>,
    range: MainchainRange,
    read: Vec<PendingWithdrawal>,
)
    ensures
        is_awaited(Stage::AwaitingParent, Event::Parent(parent)),
        (deposits matches Ok(deposits) ==> 132 + 64 * deposits@.len() <= isize::MAX) ==> is_awaited(
            Stage::AwaitingDeposits(range),
            Event::Deposits(deposits),
        ),
        is_awaited(Stage::AwaitingVaultCall(range), Event::<E>::Called(called)),
        is_awaited(Stage::AwaitingRequests(range), Event::Requests(requests)),
        is_awaited(Stage::AwaitingOutcomes(range, read), Event::Outcomes(outcomes)),
        is_awaited(Stage::AwaitingLifecycle, Event::<E>::Lifecycle(lifecycle)),
        is_awaited(Stage::AwaitingQueueCall, Event::<E>::Called(called)),
{
}

/// Once the parent is known, the deposits of exactly the range between the two blocks' `extraData`
/// are asked for; a block whose `extraData` has not 32 bytes is refused, and so is one whose parent
/// is not known.
pub proof fn lemma_deposits_are_asked_for<E>(
    state: PreExecution,
    parent: Option<Vec<u8>>,
    stage: Stage,
    action: Action<E>,
)
    requires
        state.stage == Stage::AwaitingParent,
        follows(state, Event::Parent(Ok::<_, E>(parent)), stage, action),
    ensures
        parent matches Some(parent) ==> (state.extra_data@.len() == 32 ==> {
            &&& action matches Action::FetchDeposits(range)
            &&& range.end@ == state.extra_data@
            &&& parent@.len() == 32 ==> (range.start matches Some(start) && start@ == parent@)
            &&& parent@.len() != 32 ==> range.start is None
            &&& stage == Stage::AwaitingDeposits(range)
        }),
        parent is None || state.extra_data@.len() != 32 ==> {
            &&& stage == Stage::Finished
            &&& action matches Action::Finish(Err(ExecutionError::Message(_)))
        },
        parent is None ==> (action matches Action::Finish(Err(ExecutionError::Message(text)))
            && text@ == "parent header 0x"@ + lower_hex(state.parent_hash@) + " not found"@),
        parent is Some && state.extra_data@.len() != 32 ==> (action matches Action::Finish(
            Err(ExecutionError::Message(text)),
        ) && text@ == "block extraData must be exactly 32 bytes"@),
{
    reveal_strlit("parent header ");
    reveal_strlit("parent header 0x");
    reveal_strlit("0x");
    assert("parent header 0x"@ =~= "parent header "@ + "0x"@);
    assert(no_parent_text(state.parent_hash@) =~= "parent header 0x"@ + lower_hex(
        state.parent_hash@,
    ) + " not found"@);
}

/// Every deposit of the range is credited: where there are any, the call that follows goes to the
/// vault and decodes to exactly the deposits that were fetched, as many and in the same order, with
/// the same recipients and amounts. Where there are none, no call is made.
pub proof fn lemma_every_deposit_is_credited<E>(
    state: PreExecution,
    range: MainchainRange,
    deposits: Vec<Deposit>,
    stage: Stage,
    action: Action<E>,
)
    requires
        state.stage == Stage::AwaitingDeposits(range),
        is_awaited(state.stage, Event::Deposits(Ok::<_, E>(deposits))),
        follows(state, Event::Deposits(Ok::<_, E>(deposits)), stage, action),
    ensures
        deposits@.len() == 0 ==> {
            &&& action == Action::<E>::LoadRequests(state.parent_hash)
            &&& stage == Stage::AwaitingRequests(range)
        },
        deposits@.len() > 0 ==> {
            &&& action matches Action::Call(call)
            &&& call.caller == SYSTEM_ADDRESS
            &&& call.contract == DEPOSIT_VAULT_ADDRESS
            &&& call.calldata@.take(4) == keccak(
                "systemCreditDeposits(address[],uint256[])".spec_bytes(),
            ).take(4)
            &&& call.calldata@.len() == 132 + 64 * deposits@.len()
            &&& decode_credit_call(call.calldata@).len() == deposits@.len()
            &&& forall|i: int|
                0 <= i < deposits@.len() ==> {
                    &&& decode_credit_call(call.calldata@)[i].address == (
                    #[trigger] deposits@[i]).address@
                    &&& decode_credit_call(call.calldata@)[i].value_sats == deposits@[i].value_sats
                }
            &&& stage == Stage::AwaitingVaultCall(range)
        },
{
    if deposits@.len() > 0 {
        let views = deposit_views(deposits@);
        assert forall|i: int| 0 <= i < views.len() implies (#[trigger] views[i]).address.len()
            == 20 by {
            assert(views[i] == deposits@[i]@);
        }
        lemma_credit_call_roundtrip(credit_selector(), views);
        lemma_credit_call_places(credit_selector(), views);
    }
}

/// After the credit, every request in the parent's state is asked for, and the outcomes of the very
/// range whose deposits were credited.
pub proof fn lemma_requests_and_outcomes_are_asked_for<E>(
    state: PreExecution,
    range: MainchainRange,
    event: Event<E>,
    stage: Stage,
    action: Action<E>,
)
    requires
        follows(state, event, stage, action),
    ensures
        state.stage == Stage::AwaitingVaultCall(range) && event == Event::<E>::Called(Ok(())) ==> {
            &&& action == Action::<E>::LoadRequests(state.parent_hash)
            &&& stage == Stage::AwaitingRequests(range)
        },
        state.stage == Stage::AwaitingRequests(range) ==> (event matches Event::Requests(
            Ok(requests),
        ) ==> {
            &&& action == Action::<E>::FetchOutcomes(range)
            &&& stage == Stage::AwaitingOutcomes(range, requests)
        }),
{
}

/// The report is computed for the block's own height, up to the largest that 32 bits can hold.
pub proof fn lemma_lifecycle_height<E>(
    state: PreExecution,
    outcomes: Vec<WithdrawalBundleOutcome>,
    stage: Stage,
    action: Action<E>,
)
    requires
        state.stage is AwaitingOutcomes,
        follows(state, Event::Outcomes(Ok::<_, E>(outcomes)), stage, action),
    ensures
        action matches Action::ComputeLifecycle { height, .. } && (state.block_number <= 0xFFFF_FFFF
            ==> height == state.block_number) && (state.block_number > 0xFFFF_FFFF ==> height
            == 0xFFFF_FFFF),
        stage == Stage::AwaitingLifecycle,
{
}

/// The report goes to the queue byte for byte; where there is none, or once it is made, everything
/// has been done.
pub proof fn lemma_report_is_made<E>(
    state: PreExecution,
    event: Event<E>,
    stage: Stage,
    action: Action<E>,
)
    requires
        is_awaited(state.stage, event),
        follows(state, event, stage, action),
    ensures
        event matches Event::Lifecycle(Some(report)) ==> {
            &&& action matches Action::Call(call)
            &&& call.caller == SYSTEM_ADDRESS
            &&& call.contract == WITHDRAWAL_REQUEST_QUEUE_ADDRESS
            &&& call.calldata@ == report@
            &&& stage == Stage::AwaitingQueueCall
        },
        event == Event::<E>::Lifecycle(None) ==> action == Action::<E>::Finish(Ok(())),
        state.stage == Stage::AwaitingQueueCall && event == Event::<E>::Called(Ok(())) ==> action
            == Action::<E>::Finish(Ok(())),
{
}

/// Whatever cannot be read, fetched or called ends everything, and the failure is handed on as it
/// is.
pub proof fn lemma_failures_are_handed_on<E>(
    state: PreExecution,
    event: Event<E>,
    stage: Stage,
    action: Action<E>,
)
    requires
        is_awaited(state.stage, event),
        follows(state, event, stage, action),
    ensures
        event matches Event::Parent(Err(error)) ==> action == Action::Finish(
            Err::<(), _>(ExecutionError::Other(error)),
        ),
        event matches Event::Deposits(Err(error)) ==> action == Action::Finish(
            Err::<(), _>(ExecutionError::Other(error)),
        ),
        event matches Event::Requests(Err(error)) ==> action == Action::Finish(
            Err::<(), _>(ExecutionError::Other(error)),
        ),
        event matches Event::Outcomes(Err(error)) ==> action == Action::Finish(
            Err::<(), _>(ExecutionError::Other(error)),
        ),
        event matches Event::Called(Err(text)) ==> (action matches Action::Finish(
            Err(ExecutionError::Message(message)),
        ) && message@ == text@),
        action matches Action::Finish(_) ==> stage == Stage::Finished,
{
}

/// Nothing is done for genesis. For any other block that names a mainchain block, where nothing
/// fails: the deposits after the parent's mainchain block up to its own are fetched and every one
/// of them is credited; then every request in the parent's state and every outcome of the same
/// range goes into the report, which is made as it was computed; and that is all.
pub proof fn lemma_whole_block<E>(
    begun: PreExecution,
    first: Action<E>,
    parent: Vec<u8>,
    stages: (Stage, Stage, Stage, Stage, Stage, Stage, Stage),
    actions: (Action<E>, Action<E>, Action<E>, Action<E>, Action<E>, Action<E>, Action<E>),
    deposits: Vec<Deposit>,
    requests: Vec<PendingWithdrawal>,
    outcomes: Vec<WithdrawalBundleOutcome>,
    report: Vec<u8>,
)
    requires
        begins(begun, first),
        begun.extra_data@.len() == 32,
        deposits@.len() > 0,
        132 + 64 * deposits@.len() <= isize::MAX,
        begun.block_number > 0 ==> {
            let nothing: () = ();
            &&& follows(begun, Event::Parent(Ok(Some(parent))), stages.0, actions.0)
            &&& follows(
                (PreExecution { stage: stages.0, ..begun }),
                Event::Deposits(Ok(deposits)),
                stages.1,
                actions.1,
            )
            &&& follows(
                (PreExecution { stage: stages.1, ..begun }),
                Event::Called(Ok(nothing)),
                stages.2,
                actions.2,
            )
            &&& follows(
                (PreExecution { stage: stages.2, ..begun }),
                Event::Requests(Ok(requests)),
                stages.3,
                actions.3,
            )
            &&& follows(
                (PreExecution { stage: stages.3, ..begun }),
                Event::Outcomes(Ok(outcomes)),
                stages.4,
                actions.4,
            )
            &&& follows(
                (PreExecution { stage: stages.4, ..begun }),
                Event::Lifecycle(Some(report)),
                stages.5,
                actions.5,
            )
            &&& follows(
                (PreExecution { stage: stages.5, ..begun }),
                Event::Called(Ok(nothing)),
                stages.6,
                actions.6,
            )
        },
    ensures
        begun.block_number == 0 ==> first == Action::<E>::Finish(Ok(())) && begun.stage
            == Stage::Finished,
        begun.block_number > 0 ==> {
            &&& first == Action::<E>::LoadParent(begun.parent_hash)
            &&& actions.0 matches Action::FetchDeposits(range) && {
                &&& range.end@ == begun.extra_data@
                &&& parent@.len() == 32 ==> (range.start matches Some(start) && start@ == parent@)
                &&& parent@.len() != 32 ==> range.start is None
                &&& actions.3 == Action::<E>::FetchOutcomes(range)
            }
            &&& actions.1 matches Action::Call(call) && {
                &&& call.caller == SYSTEM_ADDRESS
                &&& call.contract == DEPOSIT_VAULT_ADDRESS
                &&& decode_credit_call(call.calldata@) == deposits@.map_values(
                    |deposit: Deposit| deposit@,
                )
            }
            &&& actions.2 == Action::<E>::LoadRequests(begun.parent_hash)
            &&& actions.4 matches Action::ComputeLifecycle {
                requests: all_requests,
                outcomes: all_outcomes,
                ..
            } && all_requests == requests && all_outcomes == outcomes
            &&& actions.5 matches Action::Call(call) && {
                &&& call.caller == SYSTEM_ADDRESS
                &&& call.contract == WITHDRAWAL_REQUEST_QUEUE_ADDRESS
                &&& call.calldata@ == report@
            }
            &&& actions.6 == Action::<E>::Finish(Ok(()))
        },
{
    if begun.block_number > 0 {
        lemma_deposits_are_asked_for(begun, Some(parent), stages.0, actions.0);
        if let Action::FetchDeposits(range) = actions.0 {
            lemma_every_deposit_is_credited(
                PreExecution { stage: stages.0, ..begun },
                range,
                deposits,
                stages.1,
                actions.1,
            );
            if let Action::Call(call) = actions.1 {
                let shown = deposits@.map_values(|deposit: Deposit| deposit@);
                let decoded = decode_credit_call(call.calldata@);
                assert forall|i: int| 0 <= i < shown.len() implies decoded[i] == shown[i] by {
                    assert(decoded[i].address == deposits@[i].address@);
                    assert(decoded[i] =~= shown[i]);
                }
                assert(decoded =~= shown);
            }
        }
    }
}

/// Every block but genesis begins with its parent, which is looked up by its own hash.
pub proof fn lemma_every_block_begins<E>(state: PreExecution, action: Action<E>)
    requires
        begins(state, action),
    ensures
        state.block_number > 0 ==> {
            &&& state.stage == Stage::AwaitingParent
            &&& action == Action::<E>::LoadParent(state.parent_hash)
        },
        state.block_number == 0 ==> {
            &&& state.stage == Stage::Finished
            &&& action == Action::<E>::Finish(Ok(()))
        },
{
}

} // verus!
