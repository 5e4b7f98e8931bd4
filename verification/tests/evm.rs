use alloy_primitives::Address;
use beth::deposit_vault::{deposits_calldata, DEPOSIT_VAULT_ADDRESS};
use beth::enforcer::{Deposit, WithdrawalBundleOutcome, WithdrawalBundleStatus};
use beth::evm::{
    Action, Event, ExecutionError, PreExecution, Stage, SystemCall, SYSTEM_ADDRESS,
};
use beth::mainchain::MainchainRange;
use beth::withdrawal_bundle::queue::{PendingWithdrawal, WITHDRAWAL_REQUEST_QUEUE_ADDRESS};

const PARENT: [u8; 32] = [0xCD; 32];

fn begin(number: u64, extra_data: Vec<u8>) -> (PreExecution, Action<&'static str>) {
    PreExecution::begin(number, PARENT, extra_data)
}

fn after_parent(extra_data: Vec<u8>) -> PreExecution {
    let (mut state, _) = begin(5, extra_data);
    state.step(Event::<&'static str>::Parent(Ok(Some(vec![0x11; 32]))));
    state
}

#[test]
fn system_calls_come_from_the_system_address() {
    assert_eq!(Address::from(SYSTEM_ADDRESS), alloy_eips::eip4788::SYSTEM_ADDRESS);
}

#[test]
fn genesis_makes_no_changes() {
    let (state, action) = begin(0, Vec::new());
    assert_eq!(state.stage, Stage::Finished);
    assert_eq!(action, Action::Finish(Ok(())));
}

#[test]
fn block_with_deposits_and_report_makes_both_calls() {
    let range = MainchainRange { start: Some([0x11; 32]), end: [0x22; 32] };
    let deposits = vec![Deposit { address: [1; 20], value_sats: 100 }];
    let requests = vec![PendingWithdrawal {
        index: 3,
        requester: [7; 20],
        value_sats: 200,
        main_fee_sats: 3,
        btc_destination: vec![0xAA; 22],
    }];
    let outcomes = vec![WithdrawalBundleOutcome {
        m6id: [0x44; 32],
        status: WithdrawalBundleStatus::Failed,
    }];
    let (mut state, action) = begin(u64::MAX, vec![0x22; 32]);
    assert_eq!(action, Action::LoadParent(PARENT));
    let action: Action<&str> = state.step(Event::Parent(Ok(Some(vec![0x11; 32]))));
    assert_eq!(action, Action::FetchDeposits(range));
    let action: Action<&str> = state.step(Event::Deposits(Ok(deposits.clone())));
    assert_eq!(
        action,
        Action::Call(SystemCall {
            caller: SYSTEM_ADDRESS,
            contract: DEPOSIT_VAULT_ADDRESS,
            calldata: deposits_calldata(&deposits).unwrap(),
        })
    );
    let action: Action<&str> = state.step(Event::Called(Ok(())));
    assert_eq!(action, Action::LoadRequests(PARENT));
    let action: Action<&str> = state.step(Event::Requests(Ok(requests.clone())));
    assert_eq!(action, Action::FetchOutcomes(range));
    let action: Action<&str> = state.step(Event::Outcomes(Ok(outcomes.clone())));
    assert_eq!(action, Action::ComputeLifecycle { requests, outcomes, height: u32::MAX });
    let action: Action<&str> = state.step(Event::Lifecycle(Some(vec![1, 2, 3])));
    assert_eq!(
        action,
        Action::Call(SystemCall {
            caller: SYSTEM_ADDRESS,
            contract: WITHDRAWAL_REQUEST_QUEUE_ADDRESS,
            calldata: vec![1, 2, 3],
        })
    );
    let action: Action<&str> = state.step(Event::Called(Ok(())));
    assert_eq!(action, Action::Finish(Ok(())));
    assert_eq!(state.stage, Stage::Finished);
}

#[test]
fn quiet_block_makes_no_call() {
    let (mut state, _) = begin(1, vec![0x22; 32]);
    let range = MainchainRange { start: None, end: [0x22; 32] };
    let action: Action<&str> = state.step(Event::Parent(Ok(Some(b"genesis".to_vec()))));
    assert_eq!(action, Action::FetchDeposits(range));
    let action: Action<&str> = state.step(Event::Deposits(Ok(Vec::new())));
    assert_eq!(action, Action::LoadRequests(PARENT));
    let action: Action<&str> = state.step(Event::Requests(Ok(Vec::new())));
    assert_eq!(action, Action::FetchOutcomes(range));
    let action: Action<&str> = state.step(Event::Outcomes(Ok(Vec::new())));
    let (requests, outcomes) = (Vec::new(), Vec::new());
    assert_eq!(action, Action::ComputeLifecycle { requests, outcomes, height: 1 });
    let action: Action<&str> = state.step(Event::Lifecycle(None));
    assert_eq!(action, Action::Finish(Ok(())));
}

#[test]
fn rules_are_reported() {
    let (mut state, _) = begin(5, vec![0x22; 32]);
    let action: Action<&str> = state.step(Event::Parent(Ok(None)));
    let expected = format!("parent header 0x{} not found", "cd".repeat(32));
    assert_eq!(action, Action::Finish(Err(ExecutionError::Message(expected))));

    let (mut state, _) = begin(5, vec![0x22; 31]);
    let action: Action<&str> = state.step(Event::Parent(Ok(Some(Vec::new()))));
    let expected = "block extraData must be exactly 32 bytes".to_string();
    assert_eq!(action, Action::Finish(Err(ExecutionError::Message(expected))));
    assert_eq!(state.stage, Stage::Finished);
}

#[test]
fn failures_end_everything() {
    let (mut state, _) = begin(5, vec![0x22; 32]);
    let failed = Action::Finish(Err(ExecutionError::Other("gone")));
    assert_eq!(state.step(Event::Parent(Err("gone"))), failed);

    let mut state = after_parent(vec![0x22; 32]);
    assert_eq!(state.step(Event::Deposits(Err("gone"))), failed);

    let mut state = after_parent(vec![0x22; 32]);
    state.step(Event::<&str>::Deposits(Ok(Vec::new())));
    assert_eq!(state.step(Event::Requests(Err("gone"))), failed);

    let mut state = after_parent(vec![0x22; 32]);
    state.step(Event::<&str>::Deposits(Ok(Vec::new())));
    state.step(Event::<&str>::Requests(Ok(Vec::new())));
    assert_eq!(state.step(Event::Outcomes(Err("gone"))), failed);

    let mut state = after_parent(vec![0x22; 32]);
    let deposit = Deposit { address: [1; 20], value_sats: 100 };
    state.step(Event::<&str>::Deposits(Ok(vec![deposit])));
    let action: Action<&str> = state.step(Event::Called(Err("reverted".to_string())));
    assert_eq!(action, Action::Finish(Err(ExecutionError::Message("reverted".to_string()))));
}
