//! The peg events that the enforcer reports.

use vstd::prelude::*;

use super::error::{EnforcerError, EnforcerErrorView};
use super::messages::{
    DepositEvent, DepositOutput, GetTwoWayPegDataResponse, HexText, PegBlock, PegEvent,
    PegEventKind, WithdrawalBundleEvent, WithdrawalBundleProgress,
};
use super::parse::{lemma_hash_roundtrip, parse_address, parse_bytes, parse_txid_consensus};
use super::{
    deposit_views, outcome_views, Deposit, DepositView, OutcomeView, WithdrawalBundleOutcome,
    WithdrawalBundleStatus,
};
use crate::text::lower_hex;

verus! {

/// The events of one block, none if it carries no information.
pub open spec fn block_events(block: PegBlock) -> Seq<PegEvent> {
    match block.block_info {
        Some(info) => info.events@,
        None => Seq::empty(),
    }
}

/// The events of all blocks, in order.
pub open spec fn all_events(blocks: Seq<PegBlock>) -> Seq<PegEvent>
    decreases blocks.len(),
{
    if blocks.len() == 0 {
        Seq::empty()
    } else {
        all_events(blocks.drop_last()) + block_events(blocks.last())
    }
}

/// The text of an optional field.
pub open spec fn hex_of(text: Option<HexText>) -> Option<Seq<char>> {
    match text {
        Some(HexText { hex: Some(hex) }) => Some(hex@),
        _ => None,
    }
}

/// The deposit that an event reports, or what it lacks; `None` if it is no deposit.
pub open spec fn deposit_in(event: PegEvent) -> Option<Result<DepositView, EnforcerErrorView>> {
    match event.event {
        Some(PegEventKind::Deposit(deposit)) => Some(
            match deposit.output {
                None => Err(EnforcerErrorView::MissingField("output"@)),
                Some(output) => match output.value_sats {
                    None => Err(EnforcerErrorView::MissingField("value_sats"@)),
                    Some(value_sats) => match hex_of(output.address) {
                        None => Err(EnforcerErrorView::MissingField("address"@)),
                        Some(hex) => match parse_bytes(hex, 20) {
                            Ok(address) => Ok(DepositView { address, value_sats }),
                            Err(error) => Err(error),
                        },
                    },
                },
            },
        ),
        _ => None,
    }
}

/// The outcome that an event reports, or what it lacks; `None` if it is no withdrawal-bundle
/// event, or one that reports no status.
pub open spec fn outcome_in(event: PegEvent) -> Option<Result<OutcomeView, EnforcerErrorView>> {
    match event.event {
        Some(PegEventKind::WithdrawalBundle(bundle_event)) => match hex_of(bundle_event.m6id) {
            None => Some(Err(EnforcerErrorView::MissingField("m6id"@))),
            Some(hex) => match parse_bytes(hex, 32) {
                Err(error) => Some(Err(error)),
                Ok(m6id) => match bundle_event.event {
                    Some(WithdrawalBundleProgress { event: Some(status) }) => Some(
                        Ok(OutcomeView { m6id, status }),
                    ),
                    _ => None,
                },
            },
        },
        _ => None,
    }
}

/// What `read` finds in `events`, in order, or the first error.
pub open spec fn collect<T>(
    events: Seq<PegEvent>,
    read: spec_fn(PegEvent) -> Option<Result<T, EnforcerErrorView>>,
) -> Result<Seq<T>, EnforcerErrorView>
    decreases events.len(),
{
    if events.len() == 0 {
        Ok(Seq::empty())
    } else {
        match collect(events.drop_last(), read) {
            Err(error) => Err(error),
            Ok(found) => match read(events.last()) {
                None => Ok(found),
                Some(Ok(item)) => Ok(found.push(item)),
                Some(Err(error)) => Err(error),
            },
        }
    }
}

/// The deposits that a reply reports.
pub open spec fn deposits_in(response: GetTwoWayPegDataResponse) -> Result<
    Seq<DepositView>,
    EnforcerErrorView,
> {
    collect(all_events(response.blocks@), |event: PegEvent| deposit_in(event))
}

/// The bundle outcomes that a reply reports.
pub open spec fn outcomes_in(response: GetTwoWayPegDataResponse) -> Result<
    Seq<OutcomeView>,
    EnforcerErrorView,
> {
    collect(all_events(response.blocks@), |event: PegEvent| outcome_in(event))
}

/// Once an event cannot be read, nothing after it matters.
proof fn lemma_collect_fails<T>(
    events: Seq<PegEvent>,
    n: int,
    read: spec_fn(PegEvent) -> Option<Result<T, EnforcerErrorView>>,
)
    requires
        0 <= n <= events.len(),
        collect(events.take(n), read) is Err,
    ensures
        collect(events, read) == collect(events.take(n), read),
    decreases events.len(),
{
    if n == events.len() {
        assert(events.take(n) =~= events);
    } else {
        let rest = events.drop_last();
        assert(rest.take(n) =~= events.take(n));
        lemma_collect_fails(rest, n, read);
    }
}

/// The events of all blocks, in order.
fn list_events<'a>(blocks: &'a Vec<PegBlock>) -> (events: Vec<&'a PegEvent>)
    ensures
        events@.len() == all_events(blocks@).len(),
        forall|i: int|
            0 <= i < events@.len() ==> *(#[trigger] events@[i]) == all_events(blocks@)[i],
{
    let mut events: Vec<&'a PegEvent> = Vec::new();
    let mut i: usize = 0;
    while i < blocks.len()
        invariant
            i <= blocks@.len(),
            events@.len() == all_events(blocks@.take(i as int)).len(),
            forall|k: int|
                0 <= k < events@.len() ==> *(#[trigger] events@[k]) == all_events(
                    blocks@.take(i as int),
                )[k],
        decreases blocks@.len() - i,
    {
        let ghost done = all_events(blocks@.take(i as int));
        proof {
            assert(blocks@.take(i + 1).drop_last() =~= blocks@.take(i as int));
        }
        if let Some(info) = &blocks[i].block_info {
            let mut k: usize = 0;
            while k < info.events.len()
                invariant
                    k <= info.events@.len(),
                    events@.len() == done.len() + k,
                    forall|l: int|
                        0 <= l < events@.len() ==> *(#[trigger] events@[l]) == (done
                            + info.events@)[l],
                decreases info.events@.len() - k,
            {
                events.push(&info.events[k]);
                k = k + 1;
            }
        }
        i = i + 1;
    }
    proof {
        assert(blocks@.take(i as int) =~= blocks@);
    }
    events
}

/// The text of an optional field.
fn read_hex_field(text: &Option<HexText>) -> (hex: Option<&str>)
    ensures
        match hex {
            Some(hex) => hex_of(*text) == Some(hex@),
            None => hex_of(*text) is None,
        },
{
    match text {
        Some(HexText { hex: Some(hex) }) => Some(hex.as_str()),
        _ => None,
    }
}

/// A list of deposits, or what the error holds.
pub open spec fn deposits_read(deposits: Result<Vec<Deposit>, EnforcerError>) -> Result<
    Seq<DepositView>,
    EnforcerErrorView,
> {
    match deposits {
        Ok(deposits) => Ok(deposit_views(deposits@)),
        Err(error) => Err(error@),
    }
}

/// A list of outcomes, or what the error holds.
pub open spec fn outcomes_read(
    outcomes: Result<Vec<WithdrawalBundleOutcome>, EnforcerError>,
) -> Result<Seq<OutcomeView>, EnforcerErrorView> {
    match outcomes {
        Ok(outcomes) => Ok(outcome_views(outcomes@)),
        Err(error) => Err(error@),
    }
}

/// Reads the deposit that an event reports, if it is one.
fn read_deposit(event: &PegEvent) -> (deposit: Result<Option<Deposit>, EnforcerError>)
    ensures
        match deposit {
            Ok(None) => deposit_in(*event) is None,
            Ok(Some(deposit)) => deposit_in(*event) == Some(
                Ok::<DepositView, EnforcerErrorView>(deposit@),
            ),
            Err(error) => deposit_in(*event) == Some(
                Err::<DepositView, EnforcerErrorView>(error@),
            ),
        },
{
    let deposit = match &event.event {
        Some(PegEventKind::Deposit(deposit)) => deposit,
        _ => {
            return Ok(None);
        },
    };
    let output = match &deposit.output {
        Some(output) => output,
        None => {
            return Err(EnforcerError::MissingField("output"));
        },
    };
    let value_sats: u64 = match output.value_sats {
        Some(value_sats) => value_sats,
        None => {
            return Err(EnforcerError::MissingField("value_sats"));
        },
    };
    match read_hex_field(&output.address) {
        None => Err(EnforcerError::MissingField("address")),
        Some(hex) => match parse_address(hex) {
            Ok(address) => Ok(Some(Deposit { address, value_sats })),
            Err(error) => Err(error),
        },
    }
}

/// Reads the bundle outcome that an event reports, if it does.
fn read_outcome(event: &PegEvent) -> (outcome: Result<
    Option<WithdrawalBundleOutcome>,
    EnforcerError,
>)
    ensures
        match outcome {
            Ok(None) => outcome_in(*event) is None,
            Ok(Some(outcome)) => outcome_in(*event) == Some(
                Ok::<OutcomeView, EnforcerErrorView>(outcome@),
            ),
            Err(error) => outcome_in(*event) == Some(
                Err::<OutcomeView, EnforcerErrorView>(error@),
            ),
        },
{
    let bundle_event = match &event.event {
        Some(PegEventKind::WithdrawalBundle(bundle_event)) => bundle_event,
        _ => {
            return Ok(None);
        },
    };
    let hex = match read_hex_field(&bundle_event.m6id) {
        Some(hex) => hex,
        None => {
            return Err(EnforcerError::MissingField("m6id"));
        },
    };
    match parse_txid_consensus(hex) {
        Err(error) => Err(error),
        Ok(m6id) => match &bundle_event.event {
            Some(WithdrawalBundleProgress { event: Some(status) }) => Ok(
                Some(WithdrawalBundleOutcome { m6id, status: *status }),
            ),
            _ => Ok(None),
        },
    }
}

/// Reads the deposits that a reply reports.
pub fn read_deposits(response: GetTwoWayPegDataResponse) -> (deposits: Result<
    Vec<Deposit>,
    EnforcerError,
>)
    ensures
        deposits_read(deposits) == deposits_in(response),
{
    let ghost all = all_events(response.blocks@);
    let ghost read = |event: PegEvent| deposit_in(event);
    let events = list_events(&response.blocks);
    let mut deposits: Vec<Deposit> = Vec::new();
    let mut i: usize = 0;
    proof {
        assert(all.take(0) =~= Seq::empty());
        assert(deposit_views(deposits@) =~= Seq::empty());
    }
    while i < events.len()
        invariant
            i <= events@.len(),
            all == all_events(response.blocks@),
            events@.len() == all.len(),
            forall|k: int| 0 <= k < events@.len() ==> *(#[trigger] events@[k]) == all[k],
            read == (|event: PegEvent| deposit_in(event)),
            collect(all.take(i as int), read) == Ok::<Seq<DepositView>, EnforcerErrorView>(
                deposit_views(deposits@),
            ),
        decreases events@.len() - i,
    {
        let found = read_deposit(events[i]);
        proof {
            assert(all.take(i + 1).drop_last() =~= all.take(i as int));
            assert(all.take(i + 1).last() == *events@[i as int]);
        }
        match found {
            Ok(Some(deposit)) => {
                let ghost before = deposits@;
                deposits.push(deposit);
                proof {
                    assert(deposit_views(deposits@) =~= deposit_views(before).push(deposit@));
                }
            },
            Ok(None) => {},
            Err(error) => {
                proof {
                    lemma_collect_fails(all, i + 1, read);
                }
                return Err(error);
            },
        }
        i = i + 1;
    }
    proof {
        assert(all.take(i as int) =~= all);
    }
    Ok(deposits)
}

/// Reads the bundle outcomes that a reply reports.
pub fn read_outcomes(response: GetTwoWayPegDataResponse) -> (outcomes: Result<
    Vec<WithdrawalBundleOutcome>,
    EnforcerError,
>)
    ensures
        outcomes_read(outcomes) == outcomes_in(response),
{
    let ghost all = all_events(response.blocks@);
    let ghost read = |event: PegEvent| outcome_in(event);
    let events = list_events(&response.blocks);
    let mut outcomes: Vec<WithdrawalBundleOutcome> = Vec::new();
    let mut i: usize = 0;
    proof {
        assert(all.take(0) =~= Seq::empty());
        assert(outcome_views(outcomes@) =~= Seq::empty());
    }
    while i < events.len()
        invariant
            i <= events@.len(),
            all == all_events(response.blocks@),
            events@.len() == all.len(),
            forall|k: int| 0 <= k < events@.len() ==> *(#[trigger] events@[k]) == all[k],
            read == (|event: PegEvent| outcome_in(event)),
            collect(all.take(i as int), read) == Ok::<Seq<OutcomeView>, EnforcerErrorView>(
                outcome_views(outcomes@),
            ),
        decreases events@.len() - i,
    {
        let found = read_outcome(events[i]);
        proof {
            assert(all.take(i + 1).drop_last() =~= all.take(i as int));
            assert(all.take(i + 1).last() == *events@[i as int]);
        }
        match found {
            Ok(Some(outcome)) => {
                let ghost before = outcomes@;
                outcomes.push(outcome);
                proof {
                    assert(outcome_views(outcomes@) =~= outcome_views(before).push(outcome@));
                }
            },
            Ok(None) => {},
            Err(error) => {
                proof {
                    lemma_collect_fails(all, i + 1, read);
                }
                return Err(error);
            },
        }
        i = i + 1;
    }
    proof {
        assert(all.take(i as int) =~= all);
    }
    Ok(outcomes)
}

proof fn lemma_collect_concat<T>(
    a: Seq<PegEvent>,
    b: Seq<PegEvent>,
    read: spec_fn(PegEvent) -> Option<Result<T, EnforcerErrorView>>,
)
    requires
        collect(a, read) is Ok,
        collect(b, read) is Ok,
    ensures
        collect(a + b, read) == Ok::<Seq<T>, EnforcerErrorView>(
            collect(a, read)->Ok_0 + collect(b, read)->Ok_0,
        ),
    decreases b.len(),
{
    if b.len() == 0 {
        assert(a + b =~= a);
        assert(collect(a, read)->Ok_0 + Seq::<T>::empty() =~= collect(a, read)->Ok_0);
    } else {
        assert((a + b).drop_last() =~= a + b.drop_last());
        lemma_collect_concat(a, b.drop_last(), read);
        let (found_a, found_b) = (collect(a, read)->Ok_0, collect(b.drop_last(), read)->Ok_0);
        if let Some(Ok(item)) = read(b.last()) {
            assert((found_a + found_b).push(item) =~= found_a + found_b.push(item));
        }
    }
}

proof fn lemma_collect_both<T>(
    a: Seq<PegEvent>,
    b: Seq<PegEvent>,
    read: spec_fn(PegEvent) -> Option<Result<T, EnforcerErrorView>>,
)
    ensures
        collect(a, read) is Ok && collect(b, read) is Ok ==> collect(a + b, read) == Ok::<
            Seq<T>,
            EnforcerErrorView,
        >(collect(a, read)->Ok_0 + collect(b, read)->Ok_0),
        collect(a, read) is Err ==> collect(a + b, read) == collect(a, read),
        collect(a, read) is Ok && collect(b, read) is Err ==> collect(a + b, read) == collect(
            b,
            read,
        ),
    decreases b.len(),
{
    if collect(a, read) is Err {
        assert((a + b).take(a.len() as int) =~= a);
        lemma_collect_fails(a + b, a.len() as int, read);
    } else if collect(b, read) is Ok {
        lemma_collect_concat(a, b, read);
    } else {
        let rest = b.drop_last();
        assert((a + b).drop_last() =~= a + rest);
        lemma_collect_both(a, rest, read);
    }
}

proof fn lemma_all_events_concat(a: Seq<PegBlock>, b: Seq<PegBlock>)
    ensures
        all_events(a + b) == all_events(a) + all_events(b),
    decreases b.len(),
{
    if b.len() == 0 {
        assert(a + b =~= a);
        assert(all_events(a) + Seq::<PegEvent>::empty() =~= all_events(a));
    } else {
        assert((a + b).drop_last() =~= a + b.drop_last());
        lemma_all_events_concat(a, b.drop_last());
        assert(all_events(a) + all_events(b.drop_last()) + block_events(b.last()) =~= all_events(a)
            + all_events(b));
    }
}

/// Reading one range of mainchain blocks after another finds the same deposits and outcomes, in
/// the same order, as reading both at once: what is credited does not depend on where sidechain
/// blocks divide the mainchain.
pub proof fn lemma_ranges_add_up(
    a: GetTwoWayPegDataResponse,
    b: GetTwoWayPegDataResponse,
    both: GetTwoWayPegDataResponse,
)
    requires
        both.blocks@ == a.blocks@ + b.blocks@,
    ensures
        deposits_in(a) is Ok && deposits_in(b) is Ok ==> deposits_in(both) == Ok::<
            Seq<DepositView>,
            EnforcerErrorView,
        >(deposits_in(a)->Ok_0 + deposits_in(b)->Ok_0),
        outcomes_in(a) is Ok && outcomes_in(b) is Ok ==> outcomes_in(both) == Ok::<
            Seq<OutcomeView>,
            EnforcerErrorView,
        >(outcomes_in(a)->Ok_0 + outcomes_in(b)->Ok_0),
        deposits_in(a) is Err ==> deposits_in(both) == deposits_in(a),
        outcomes_in(a) is Err ==> outcomes_in(both) == outcomes_in(a),
        deposits_in(a) is Ok && deposits_in(b) is Err ==> deposits_in(both) == deposits_in(b),
        outcomes_in(a) is Ok && outcomes_in(b) is Err ==> outcomes_in(both) == outcomes_in(b),
{
    lemma_all_events_concat(a.blocks@, b.blocks@);
    let (events_a, events_b) = (all_events(a.blocks@), all_events(b.blocks@));
    lemma_collect_both(events_a, events_b, |event: PegEvent| deposit_in(event));
    lemma_collect_both(events_a, events_b, |event: PegEvent| outcome_in(event));
}

/// Events of one block that follow one another are read one after the other, up to the first that
/// cannot be read.
pub proof fn lemma_events_add_up(
    a: GetTwoWayPegDataResponse,
    b: GetTwoWayPegDataResponse,
    both: GetTwoWayPegDataResponse,
    events_a: Seq<PegEvent>,
    events_b: Seq<PegEvent>,
)
    requires
        is_one_block(a, events_a),
        is_one_block(b, events_b),
        is_one_block(both, events_a + events_b),
    ensures
        deposits_in(a) is Ok && deposits_in(b) is Ok ==> deposits_in(both) == Ok::<
            Seq<DepositView>,
            EnforcerErrorView,
        >(deposits_in(a)->Ok_0 + deposits_in(b)->Ok_0),
        outcomes_in(a) is Ok && outcomes_in(b) is Ok ==> outcomes_in(both) == Ok::<
            Seq<OutcomeView>,
            EnforcerErrorView,
        >(outcomes_in(a)->Ok_0 + outcomes_in(b)->Ok_0),
        deposits_in(a) is Err ==> deposits_in(both) == deposits_in(a),
        outcomes_in(a) is Err ==> outcomes_in(both) == outcomes_in(a),
        deposits_in(a) is Ok && deposits_in(b) is Err ==> deposits_in(both) == deposits_in(b),
        outcomes_in(a) is Ok && outcomes_in(b) is Err ==> outcomes_in(both) == outcomes_in(b),
{
    lemma_one_block(a, events_a);
    lemma_one_block(b, events_b);
    lemma_one_block(both, events_a + events_b);
    lemma_collect_both(events_a, events_b, |event: PegEvent| deposit_in(event));
    lemma_collect_both(events_a, events_b, |event: PegEvent| outcome_in(event));
}

/// Whether a reply holds one block, with these events.
pub open spec fn is_one_block(response: GetTwoWayPegDataResponse, events: Seq<PegEvent>) -> bool {
    &&& response.blocks@.len() == 1
    &&& response.blocks@[0].block_info matches Some(info) && info.events@ == events
}

proof fn lemma_one_block(response: GetTwoWayPegDataResponse, events: Seq<PegEvent>)
    requires
        is_one_block(response, events),
    ensures
        all_events(response.blocks@) == events,
{
    let blocks = response.blocks@;
    assert(blocks.drop_last() =~= Seq::empty());
    reveal_with_fuel(all_events, 2);
    assert(all_events(blocks) =~= events);
}

proof fn lemma_one_event(response: GetTwoWayPegDataResponse, event: PegEvent)
    requires
        is_one_block(response, seq![event]),
    ensures
        deposits_in(response) == match deposit_in(event) {
            None => Ok(Seq::empty()),
            Some(Ok(deposit)) => Ok(seq![deposit]),
            Some(Err(error)) => Err::<Seq<DepositView>, _>(error),
        },
        outcomes_in(response) == match outcome_in(event) {
            None => Ok(Seq::empty()),
            Some(Ok(outcome)) => Ok(seq![outcome]),
            Some(Err(error)) => Err::<Seq<OutcomeView>, _>(error),
        },
{
    lemma_one_block(response, seq![event]);
    assert(seq![event].drop_last() =~= Seq::empty());
    reveal_with_fuel(collect, 2);
    if let Some(Ok(deposit)) = deposit_in(event) {
        assert(Seq::empty().push(deposit) =~= seq![deposit]);
    }
    if let Some(Ok(outcome)) = outcome_in(event) {
        assert(Seq::empty().push(outcome) =~= seq![outcome]);
    }
}

/// Without blocks, without information on a block, and without events there is nothing to read.
pub proof fn lemma_nothing_is_read(response: GetTwoWayPegDataResponse)
    requires
        forall|i: int| 0 <= i < response.blocks@.len() ==> ((
        #[trigger] response.blocks@[i]).block_info matches Some(info) ==> info.events@.len() == 0),
    ensures
        deposits_in(response) == Ok::<Seq<DepositView>, EnforcerErrorView>(Seq::empty()),
        outcomes_in(response) == Ok::<Seq<OutcomeView>, EnforcerErrorView>(Seq::empty()),
{
    lemma_no_events(response.blocks@);
}

proof fn lemma_no_events(blocks: Seq<PegBlock>)
    requires
        forall|i: int| 0 <= i < blocks.len() ==> ((
        #[trigger] blocks[i]).block_info matches Some(info) ==> info.events@.len() == 0),
    ensures
        all_events(blocks) == Seq::<PegEvent>::empty(),
    decreases blocks.len(),
{
    if blocks.len() > 0 {
        let rest = blocks.drop_last();
        assert forall|i: int| 0 <= i < rest.len() implies ((
        #[trigger] rest[i]).block_info matches Some(info) ==> info.events@.len() == 0) by {
            assert(rest[i] == blocks[i]);
        }
        lemma_no_events(rest);
        assert(blocks[blocks.len() - 1] == blocks.last());
        assert(all_events(blocks) =~= Seq::<PegEvent>::empty());
    }
}

/// A deposit event is read as one deposit, of its own amount to its own address: the 20 bytes in
/// the order in which the text spells them.
pub proof fn lemma_deposit_is_read(
    response: GetTwoWayPegDataResponse,
    event: PegEvent,
    hex: String,
    address: Seq<u8>,
    value_sats: u64,
)
    requires
        is_one_block(response, seq![event]),
        event.event == Some(
            PegEventKind::Deposit(
                (DepositEvent {
                    output: Some(
                        DepositOutput {
                            value_sats: Some(value_sats),
                            address: Some(HexText { hex: Some(hex) }),
                        },
                    ),
                }),
            ),
        ),
        address.len() == 20,
        hex@ == lower_hex(address) || hex@ == "0x"@ + lower_hex(address),
    ensures
        deposits_in(response) == Ok::<Seq<DepositView>, EnforcerErrorView>(
            seq![DepositView { address, value_sats }],
        ),
        outcomes_in(response) == Ok::<Seq<OutcomeView>, EnforcerErrorView>(Seq::empty()),
{
    lemma_one_event(response, event);
    lemma_hash_roundtrip(address);
}

/// A withdrawal-bundle event is read as one outcome, with its own status and its own id: the 32
/// bytes in the order in which the text spells them.
pub proof fn lemma_outcome_is_read(
    response: GetTwoWayPegDataResponse,
    event: PegEvent,
    hex: String,
    m6id: Seq<u8>,
    status: WithdrawalBundleStatus,
)
    requires
        is_one_block(response, seq![event]),
        event.event == Some(
            PegEventKind::WithdrawalBundle(
                (WithdrawalBundleEvent {
                    m6id: Some(HexText { hex: Some(hex) }),
                    event: Some(WithdrawalBundleProgress { event: Some(status) }),
                }),
            ),
        ),
        m6id.len() == 32,
        hex@ == lower_hex(m6id) || hex@ == "0x"@ + lower_hex(m6id),
    ensures
        outcomes_in(response) == Ok::<Seq<OutcomeView>, EnforcerErrorView>(
            seq![OutcomeView { m6id, status }],
        ),
        deposits_in(response) == Ok::<Seq<DepositView>, EnforcerErrorView>(Seq::empty()),
{
    lemma_one_event(response, event);
    lemma_hash_roundtrip(m6id);
}

/// Events that tell of neither are passed over, as are bundle events without a status.
pub proof fn lemma_other_events_are_passed_over(
    response: GetTwoWayPegDataResponse,
    event: PegEvent,
)
    requires
        is_one_block(response, seq![event]),
    ensures
        event.event is None ==> deposits_in(response) == Ok::<Seq<DepositView>, EnforcerErrorView>(
            Seq::empty(),
        ),
        event.event is None ==> outcomes_in(response) == Ok::<Seq<OutcomeView>, EnforcerErrorView>(
            Seq::empty(),
        ),
        event.event matches Some(PegEventKind::Deposit(_)) ==> outcomes_in(response) == Ok::<
            Seq<OutcomeView>,
            EnforcerErrorView,
        >(Seq::empty()),
        event.event matches Some(PegEventKind::WithdrawalBundle(_)) ==> deposits_in(response)
            == Ok::<Seq<DepositView>, EnforcerErrorView>(Seq::empty()),
{
    lemma_one_event(response, event);
}

/// A bundle event whose id is in order and that has no status tells nothing.
pub proof fn lemma_outcome_without_status(
    response: GetTwoWayPegDataResponse,
    event: PegEvent,
    bundle_event: WithdrawalBundleEvent,
    hex: String,
    m6id: Seq<u8>,
)
    requires
        is_one_block(response, seq![event]),
        event.event == Some(PegEventKind::WithdrawalBundle(bundle_event)),
        bundle_event.m6id == Some((HexText { hex: Some(hex) })),
        m6id.len() == 32,
        hex@ == lower_hex(m6id) || hex@ == "0x"@ + lower_hex(m6id),
        bundle_event.event matches Some(progress) ==> progress.event is None,
    ensures
        outcomes_in(response) == Ok::<Seq<OutcomeView>, EnforcerErrorView>(Seq::empty()),
{
    lemma_one_event(response, event);
    lemma_hash_roundtrip(m6id);
}

/// An event that lacks a field says which, and text that cannot be an address or an id is quoted.
pub proof fn lemma_broken_events_are_refused(
    response: GetTwoWayPegDataResponse,
    event: PegEvent,
    kind: PegEventKind,
)
    requires
        is_one_block(response, seq![event]),
        event.event == Some(kind),
    ensures
        kind matches PegEventKind::Deposit(deposit) ==> (deposit.output is None ==> deposits_in(
            response,
        ) == Err::<Seq<DepositView>, _>(EnforcerErrorView::MissingField("output"@))),
        kind matches PegEventKind::Deposit(deposit) ==> (deposit.output matches Some(output) ==> (
        output.value_sats is None ==> deposits_in(response) == Err::<Seq<DepositView>, _>(
            EnforcerErrorView::MissingField("value_sats"@),
        ))),
        kind matches PegEventKind::Deposit(deposit) ==> (deposit.output matches Some(output) ==> (
        output.value_sats is Some && output.address is None ==> deposits_in(response) == Err::<
            Seq<DepositView>,
            _,
        >(EnforcerErrorView::MissingField("address"@)))),
        kind matches PegEventKind::Deposit(deposit) ==> (deposit.output matches Some(output) ==> (
        output.address matches Some(text) ==> (text.hex is None && output.value_sats is Some
            ==> deposits_in(response) == Err::<Seq<DepositView>, _>(
            EnforcerErrorView::MissingField("address"@),
        )))),
        kind matches PegEventKind::Deposit(deposit) ==> (deposit.output matches Some(output) ==> (
        output.address matches Some(text) ==> (text.hex matches Some(hex) ==> (
        output.value_sats is Some && parse_bytes(hex@, 20) is Err ==> deposits_in(response)
            == Err::<Seq<DepositView>, _>(EnforcerErrorView::InvalidHex(hex@)))))),
        kind matches PegEventKind::WithdrawalBundle(bundle_event) ==> (bundle_event.m6id is None
            ==> outcomes_in(response) == Err::<Seq<OutcomeView>, _>(
            EnforcerErrorView::MissingField("m6id"@),
        )),
        kind matches PegEventKind::WithdrawalBundle(bundle_event) ==> (
        bundle_event.m6id matches Some(text) ==> (text.hex is None ==> outcomes_in(response)
            == Err::<Seq<OutcomeView>, _>(EnforcerErrorView::MissingField("m6id"@)))),
        kind matches PegEventKind::WithdrawalBundle(bundle_event) ==> (
        bundle_event.m6id matches Some(text) ==> (text.hex matches Some(hex) ==> (parse_bytes(
            hex@,
            32,
        ) is Err ==> outcomes_in(response) == Err::<Seq<OutcomeView>, _>(
            EnforcerErrorView::InvalidHex(hex@),
        )))),
{
    lemma_one_event(response, event);
}

/// Lists that were read are handed on as they are, and errors as what they hold.
pub proof fn lemma_lists_are_handed_on(
    deposits: Vec<Deposit>,
    outcomes: Vec<WithdrawalBundleOutcome>,
    error: EnforcerError,
)
    ensures
        deposits_read(Ok::<Vec<Deposit>, EnforcerError>(deposits)) == Ok::<
            Seq<DepositView>,
            EnforcerErrorView,
        >(deposits@.map_values(|deposit: Deposit| deposit@)),
        outcomes_read(Ok::<Vec<WithdrawalBundleOutcome>, EnforcerError>(outcomes)) == Ok::<
            Seq<OutcomeView>,
            EnforcerErrorView,
        >(outcomes@.map_values(|outcome: WithdrawalBundleOutcome| outcome@)),
        deposits_read(Err::<Vec<Deposit>, EnforcerError>(error)) == Err::<Seq<DepositView>, _>(
            error@,
        ),
        outcomes_read(Err::<Vec<WithdrawalBundleOutcome>, EnforcerError>(error)) == Err::<
            Seq<OutcomeView>,
            _,
        >(error@),
{
}

} // verus!
