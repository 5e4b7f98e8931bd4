//! The checks that a block must pass beyond the standard Ethereum ones: it must be committed in a
//! Bitcoin mainchain block per BIP301 blind merge mining, and its BIP300 deposit-mint withdrawals
//! must match what any node can recompute from the enforcer.
//!
//! The second check stands beside the system call by which [`crate::evm`] credits the same
//! deposits, and neither gives way to the other. [`crate::payload`] leaves a block's withdrawals
//! empty, so what it builds passes only over a range that holds no deposits.

use vstd::prelude::*;
use vstd::string::*;

use crate::enforcer::error::{EnforcerError, EnforcerErrorView};
use crate::enforcer::events::{deposits_in, deposits_read};
use crate::enforcer::messages::{
    answered, asks_for_commitment, asks_for_peg_data, lemma_commitment_is_missing,
    lemma_commitment_is_read, reports_commitment, BmmCommitment, CommitmentResult,
    GetBmmHStarCommitmentRequest, GetBmmHStarCommitmentResponse, GetTwoWayPegDataRequest,
    GetTwoWayPegDataResponse, HexText,
};
use crate::enforcer::{after_call, deposit_views, Deposit, DepositView, EnforcerClient};
use crate::mainchain::{
    covered_range, covers, main_hash, main_hash_in, optional_hash_text, print_optional_hash,
    MainchainRange,
};
use crate::text::{decimal, decimal_text, hash_text, lower_hex, print_hash};
use crate::words::{saturate_u64, to_array};

verus! {

/// 1 satoshi = 10 gwei = 10^10 wei.
pub const GWEI_PER_SAT: u64 = 10;

/// An EIP-4895 withdrawal.
#[derive(Debug, Clone, Copy, PartialEq, Eq)]
pub struct Withdrawal {
    pub index: u64,
    pub validator_index: u64,
    pub address: [u8; 20],
    /// In gwei.
    pub amount: u64,
}

/// What a withdrawal holds.
#[verifier::ext_equal]
pub struct WithdrawalView {
    pub index: u64,
    pub validator_index: u64,
    pub address: Seq<u8>,
    pub amount: u64,
}

impl View for Withdrawal {
    type V = WithdrawalView;

    open spec fn view(&self) -> WithdrawalView {
        WithdrawalView {
            index: self.index,
            validator_index: self.validator_index,
            address: self.address@,
            amount: self.amount,
        }
    }
}

/// What a list of withdrawals holds.
pub open spec fn withdrawal_views(withdrawals: Seq<Withdrawal>) -> Seq<WithdrawalView> {
    withdrawals.map_values(|withdrawal: Withdrawal| withdrawal@)
}

/// The withdrawal that mints the `i`-th deposit of a block, in gwei up to the largest `u64`.
pub open spec fn mint_of(i: int, deposit: DepositView) -> WithdrawalView {
    WithdrawalView {
        index: i as u64,
        validator_index: 0,
        address: deposit.address,
        amount: saturate_u64((deposit.value_sats * GWEI_PER_SAT) as nat),
    }
}

/// The withdrawals that mint `deposits`.
pub open spec fn mints(deposits: Seq<DepositView>) -> Seq<WithdrawalView> {
    Seq::new(deposits.len(), |i: int| mint_of(i, deposits[i]))
}

/// Whether `i` is the first place where `actual` does not mint `expected`.
pub open spec fn is_first_mismatch(
    expected: Seq<DepositView>,
    actual: Seq<WithdrawalView>,
    i: int,
) -> bool {
    &&& 0 <= i < expected.len()
    &&& actual[i] != mints(expected)[i]
    &&& forall|j: int| 0 <= j < i ==> #[trigger] actual[j] == mints(expected)[j]
}

/// Why `actual` does not begin with the mints of `expected`.
pub open spec fn mismatch_text(
    expected: Seq<DepositView>,
    actual: Seq<WithdrawalView>,
    text: Seq<char>,
) -> bool {
    if actual.len() < expected.len() {
        text == "block has "@ + decimal(actual.len()) + " withdrawal(s), expected at least "@
            + decimal(expected.len()) + " for its BIP300 deposit mints"@
    } else {
        exists|i: int| #[trigger]
            is_first_mismatch(expected, actual, i) && text == "withdrawal #"@ + decimal(i as nat)
                + " does not match the expected BIP300 deposit mint"@
    }
}

/// Whether `actual` begins with the mints of `expected`.
pub open spec fn begins_with_mints(
    expected: Seq<DepositView>,
    actual: Seq<WithdrawalView>,
) -> bool {
    mints(expected).is_prefix_of(actual)
}

/// Whether `withdrawal` stands at place `i` and pays `deposit` to its own address, ten gwei for
/// each satoshi, up to the largest amount that there is.
pub open spec fn mints_in_place(deposit: Deposit, withdrawal: Withdrawal, i: int) -> bool {
    &&& withdrawal.index == i
    &&& withdrawal.validator_index == 0
    &&& withdrawal.address@ == deposit.address@
    &&& deposit.value_sats * 10 <= u64::MAX ==> withdrawal.amount == deposit.value_sats * 10
    &&& deposit.value_sats * 10 > u64::MAX ==> withdrawal.amount == u64::MAX
}

/// Withdrawals begin with the mints of deposits if and only if there are at least as many, and the
/// one in each deposit's place has that deposit's address byte for byte, ten times its value in
/// gwei, its place as its index, and no validator.
pub proof fn lemma_mints_field_by_field(deposits: Seq<Deposit>, withdrawals: Seq<Withdrawal>)
    requires
        deposits.len() <= u64::MAX,
    ensures
        begins_with_mints(deposit_views(deposits), withdrawal_views(withdrawals)) <==> {
            &&& deposits.len() <= withdrawals.len()
            &&& forall|i: int|
                0 <= i < deposits.len() ==> mints_in_place(
                    #[trigger] deposits[i],
                    withdrawals[i],
                    i,
                )
        },
        begins_with_mints(deposit_views(deposits), withdrawal_views(withdrawals)) <==> {
            &&& deposits.len() <= withdrawals.len()
            &&& forall|i: int|
                0 <= i < deposits.len() ==> {
                    let (deposit, withdrawal) = (#[trigger] deposits[i], withdrawals[i]);
                    &&& withdrawal.index == i
                    &&& withdrawal.validator_index == 0
                    &&& withdrawal.address@ == deposit.address@
                    &&& deposit.value_sats * 10 <= 0xFFFF_FFFF_FFFF_FFFF ==> withdrawal.amount
                        == deposit.value_sats * 10
                    &&& deposit.value_sats * 10 > 0xFFFF_FFFF_FFFF_FFFF ==> withdrawal.amount
                        == 0xFFFF_FFFF_FFFF_FFFF
                }
        },
{
    let (expected, actual) = (deposit_views(deposits), withdrawal_views(withdrawals));
    assert forall|i: int|
        0 <= i < deposits.len() && i < withdrawals.len() implies (mints_in_place(
        #[trigger] deposits[i],
        withdrawals[i],
        i,
    ) <==> actual[i] == mints(expected)[i]) by {
        let (deposit, withdrawal) = (deposits[i], withdrawals[i]);
        if mints_in_place(deposit, withdrawal, i) {
            assert(withdrawal.address@ =~= deposit.address@);
        }
        if actual[i] == mints(expected)[i] {
            assert(withdrawal@ == mint_of(i, deposit@));
            assert(withdrawal.address@ == deposit.address@);
        }
    }
    if begins_with_mints(expected, actual) {
        assert forall|i: int| 0 <= i < deposits.len() implies mints_in_place(
            #[trigger] deposits[i],
            withdrawals[i],
            i,
        ) by {
            assert(actual.take(mints(expected).len() as int)[i] == actual[i]);
        }
    }
    if deposits.len() <= withdrawals.len() && forall|i: int|
        0 <= i < deposits.len() ==> mints_in_place(#[trigger] deposits[i], withdrawals[i], i) {
        assert forall|i: int| 0 <= i < deposits.len() implies actual[i] == mints(
            expected,
        )[i] by {
            assert(mints_in_place(deposits[i], withdrawals[i], i));
        }
        assert(actual.take(mints(expected).len() as int) =~= mints(expected));
    }
    let in_place = forall|i: int|
        0 <= i < deposits.len() ==> mints_in_place(#[trigger] deposits[i], withdrawals[i], i);
    let by_fields = forall|i: int|
        0 <= i < deposits.len() ==> {
            let (deposit, withdrawal) = (#[trigger] deposits[i], withdrawals[i]);
            &&& withdrawal.index == i
            &&& withdrawal.validator_index == 0
            &&& withdrawal.address@ == deposit.address@
            &&& deposit.value_sats * 10 <= 0xFFFF_FFFF_FFFF_FFFF ==> withdrawal.amount
                == deposit.value_sats * 10
            &&& deposit.value_sats * 10 > 0xFFFF_FFFF_FFFF_FFFF ==> withdrawal.amount
                == 0xFFFF_FFFF_FFFF_FFFF
        };
    if in_place {
        assert(by_fields) by {
            assert forall|i: int| 0 <= i < deposits.len() implies {
                let (deposit, withdrawal) = (#[trigger] deposits[i], withdrawals[i]);
                &&& withdrawal.index == i
                &&& withdrawal.validator_index == 0
                &&& withdrawal.address@ == deposit.address@
                &&& deposit.value_sats * 10 <= 0xFFFF_FFFF_FFFF_FFFF ==> withdrawal.amount
                    == deposit.value_sats * 10
                &&& deposit.value_sats * 10 > 0xFFFF_FFFF_FFFF_FFFF ==> withdrawal.amount
                    == 0xFFFF_FFFF_FFFF_FFFF
            } by {
                assert(mints_in_place(deposits[i], withdrawals[i], i));
            }
        }
    }
    if by_fields {
        assert forall|i: int| 0 <= i < deposits.len() implies mints_in_place(
            #[trigger] deposits[i],
            withdrawals[i],
            i,
        ) by {
            let deposit = deposits[i];
        }
    }
}

/// Whether two addresses are the same.
fn addresses_equal(a: &[u8; 20], b: &[u8; 20]) -> (equal: bool)
    ensures
        equal == (a@ == b@),
{
    let mut i: usize = 0;
    while i < 20
        invariant
            i <= 20,
            forall|j: int| 0 <= j < i ==> a@[j] == b@[j],
        decreases 20 - i,
    {
        if a[i] != b[i] {
            return false;
        }
        i = i + 1;
    }
    proof {
        assert(a@ =~= b@);
    }
    true
}

/// Checks that `actual` (a block's EIP-4895 withdrawals) begins with exactly `expected` (BIP300
/// deposits, each converted to the `{index, validator_index: 0, address, amount}` shape they are
/// minted as), in order. Returns `Err` with a human-readable reason on the first mismatch.
pub fn deposit_prefix_matches(expected: &[Deposit], actual: &[Withdrawal]) -> (verdict: Result<
    (),
    String,
>)
    ensures
        ({
            let (deposits, withdrawals) = (deposit_views(expected@), withdrawal_views(actual@));
            match verdict {
                Ok(()) => begins_with_mints(deposits, withdrawals),
                Err(reason) => {
                    &&& !begins_with_mints(deposits, withdrawals)
                    &&& mismatch_text(deposits, withdrawals, reason@)
                },
            }
        }),
        verdict is Ok <==> expected@.len() <= actual@.len() && forall|i: int|
            0 <= i < expected@.len() ==> mints_in_place(#[trigger] expected@[i], actual@[i], i),
{
    let ghost deposits = deposit_views(expected@);
    let ghost withdrawals = withdrawal_views(actual@);
    if actual.len() < expected.len() {
        return Err(
            "block has ".to_owned().concat(decimal_text(actual.len() as u64).as_str()).concat(
                " withdrawal(s), expected at least ",
            ).concat(decimal_text(expected.len() as u64).as_str()).concat(
                " for its BIP300 deposit mints",
            ),
        );
    }
    let mut i: usize = 0;
    while i < expected.len()
        invariant
            i <= expected@.len() <= actual@.len(),
            deposits == deposit_views(expected@),
            withdrawals == withdrawal_views(actual@),
            forall|j: int| 0 <= j < i ==> #[trigger] withdrawals[j] == mints(deposits)[j],
        decreases expected@.len() - i,
    {
        let deposit = &expected[i];
        let withdrawal = &actual[i];
        let expected_amount: u64 = match deposit.value_sats.checked_mul(GWEI_PER_SAT) {
            Some(amount) => amount,
            None => u64::MAX,
        };
        proof {
            assert(deposits[i as int] == deposit@);
            assert(withdrawals[i as int] == withdrawal@);
            assert(mints(deposits)[i as int] == mint_of(i as int, deposit@));
        }
        if withdrawal.index != i as u64 || withdrawal.validator_index != 0 || !addresses_equal(
            &withdrawal.address,
            &deposit.address,
        ) || withdrawal.amount != expected_amount {
            proof {
                assert(is_first_mismatch(deposits, withdrawals, i as int));
                lemma_mints_field_by_field(expected@, actual@);
                if begins_with_mints(deposits, withdrawals) {
                    assert(withdrawals.take(mints(deposits).len() as int)[i as int]
                        == withdrawals[i as int]);
                }
            }
            return Err(
                "withdrawal #".to_owned().concat(decimal_text(i as u64).as_str()).concat(
                    " does not match the expected BIP300 deposit mint",
                ),
            );
        }
        i = i + 1;
    }
    proof {
        assert(withdrawals.take(mints(deposits).len() as int) =~= mints(deposits));
        lemma_mints_field_by_field(expected@, actual@);
    }
    Ok(())
}

/// A block that mints exactly its deposits, and then withdraws whatever else, is accepted.
pub proof fn lemma_minted_deposits_match(deposits: Seq<DepositView>, others: Seq<WithdrawalView>)
    ensures
        begins_with_mints(deposits, mints(deposits) + others),
{
    assert((mints(deposits) + others).take(mints(deposits).len() as int) =~= mints(deposits));
}

/// A block without withdrawals, such as a producer builds, is accepted if and only if there is no
/// deposit to mint.
pub proof fn lemma_no_withdrawals(deposits: Seq<DepositView>)
    ensures
        begins_with_mints(deposits, Seq::empty()) <==> deposits.len() == 0,
{
    if deposits.len() == 0 {
        assert(Seq::<WithdrawalView>::empty().take(0) =~= mints(deposits));
    }
}

/// What the checks read of a header.
#[derive(Debug, Clone, PartialEq, Eq)]
pub struct HeaderSummary {
    pub hash: [u8; 32],
    pub number: u64,
    pub extra_data: Vec<u8>,
}

/// What the checks read of a block.
#[derive(Debug, Clone, PartialEq, Eq)]
pub struct BlockSummary {
    pub hash: [u8; 32],
    pub parent_hash: [u8; 32],
    pub extra_data: Vec<u8>,
    pub withdrawals: Option<Vec<Withdrawal>>,
}

/// Why a block is refused.
#[derive(Debug, Clone, PartialEq, Eq)]
pub enum ConsensusError<S, P> {
    /// The standard Ethereum checks refuse it.
    Standard(S),
    /// The parent's header could not be looked up.
    Provider(P),
    /// The enforcer could not be consulted.
    Enforcer(EnforcerError),
    /// It breaks a rule of this sidechain, as told here.
    Rule(String),
}

/// What is said of a header whose `extraData` names no mainchain block.
pub open spec fn bad_extra_data_text(header: HeaderSummary) -> Seq<char> {
    "block "@ + hash_text(header.hash@) + " (number "@ + decimal(header.number as nat)
        + ") extraData must be exactly 32 bytes (the BIP301 mainchain block it was BMM-mined against), got "@
        + decimal(header.extra_data@.len()) + " bytes"@
}

/// What is said of a header that the mainchain block it names does not commit to.
pub open spec fn not_committed_text(header: HeaderSummary, main_hash: Seq<u8>) -> Seq<char> {
    "block "@ + hash_text(header.hash@) + " (number "@ + decimal(header.number as nat)
        + ") is not BIP301 BMM-committed in mainchain block "@ + hash_text(main_hash)
}

/// What is said of a block whose parent is not known.
pub open spec fn no_parent_text(parent_hash: Seq<u8>) -> Seq<char> {
    "parent header "@ + hash_text(parent_hash) + " not found"@
}

/// What is said of a block whose `extraData` names no mainchain block.
pub open spec fn bad_block_extra_data_text(block: BlockSummary) -> Seq<char> {
    "block "@ + hash_text(block.hash@) + " extraData must be exactly 32 bytes"@
}

/// What is said of a block that does not mint its deposits.
pub open spec fn mints_text(block: BlockSummary, range: MainchainRange, reason: Seq<char>) -> Seq<
    char,
> {
    "block "@ + hash_text(block.hash@) + " deposit mints don't match mainchain range "@
        + optional_hash_text(range.start) + "..="@ + hash_text(range.end@) + ": "@ + reason
}

/// The withdrawals of a block, none if it has no such list.
pub open spec fn block_withdrawals(block: BlockSummary) -> Seq<WithdrawalView> {
    match block.withdrawals {
        Some(withdrawals) => withdrawal_views(withdrawals@),
        None => Seq::empty(),
    }
}

/// The verdict on a header, given whether the mainchain block it names commits to it.
pub open spec fn header_verdict<S, P>(
    verdict: Result<(), ConsensusError<S, P>>,
    header: HeaderSummary,
    committed: Result<bool, EnforcerErrorView>,
) -> bool {
    match committed {
        Ok(true) => verdict is Ok,
        Ok(false) => verdict matches Err(ConsensusError::Rule(text)) && text@
            == not_committed_text(header, header.extra_data@),
        Err(error) => verdict matches Err(ConsensusError::Enforcer(e)) && e@ == error,
    }
}

/// The verdict on a block's withdrawals, given the deposits of the mainchain range it covers.
pub open spec fn deposits_verdict<S, P>(
    verdict: Result<(), ConsensusError<S, P>>,
    block: BlockSummary,
    range: MainchainRange,
    deposits: Result<Seq<DepositView>, EnforcerErrorView>,
) -> bool {
    match deposits {
        Ok(deposits) => if begins_with_mints(deposits, block_withdrawals(block)) {
            verdict is Ok
        } else {
            verdict matches Err(ConsensusError::Rule(text)) && exists|reason: Seq<char>| #[trigger]
                mismatch_text(deposits, block_withdrawals(block), reason) && text@ == mints_text(
                    block,
                    range,
                    reason,
                )
        },
        Err(error) => verdict matches Err(ConsensusError::Enforcer(e)) && e@ == error,
    }
}

/// The verdict on a header, given that of the standard checks and what `rpc` replies.
pub open spec fn header_outcome<R, S, P>(
    verdict: Result<(), ConsensusError<S, P>>,
    standard: Result<(), S>,
    header: HeaderSummary,
    sidechain_id: u32,
    rpc: R,
) -> bool where
    R: FnOnce(GetBmmHStarCommitmentRequest) -> Result<GetBmmHStarCommitmentResponse, String>,
 {
    match standard {
        Err(error) => verdict == Err::<(), _>(ConsensusError::<S, P>::Standard(error)),
        Ok(()) => match main_hash_in(header.extra_data@) {
            None => verdict matches Err(ConsensusError::Rule(text)) && text@
                == bad_extra_data_text(header),
            Some(_) => exists|
                request: GetBmmHStarCommitmentRequest,
                reply: Result<GetBmmHStarCommitmentResponse, String>,
            |
                {
                    &&& asks_for_commitment(request, header.extra_data@, sidechain_id)
                    &&& #[trigger] call_ensures(rpc, (request,), reply)
                    &&& header_verdict(
                        verdict,
                        header,
                        after_call(
                            reply,
                            |response: GetBmmHStarCommitmentResponse|
                                reports_commitment(response, header.hash@),
                        ),
                    )
                },
        },
    }
}

/// The verdict on a block, given that of the standard checks, the parent that is found and what
/// `rpc` replies.
pub open spec fn block_outcome<R, H, S, P>(
    verdict: Result<(), ConsensusError<S, P>>,
    standard: Result<(), S>,
    block: BlockSummary,
    sidechain_id: u32,
    parent_extra_data: H,
    rpc: R,
) -> bool where
    H: FnOnce([u8; 32]) -> Result<Option<Vec<u8>>, P>,
    R: FnOnce(GetTwoWayPegDataRequest) -> Result<GetTwoWayPegDataResponse, String>,
 {
    match standard {
        Err(error) => verdict == Err::<(), _>(ConsensusError::<S, P>::Standard(error)),
        Ok(()) => exists|found: Result<Option<Vec<u8>>, P>|
            {
                &&& #[trigger] call_ensures(parent_extra_data, (block.parent_hash,), found)
                &&& match found {
                    Err(error) => verdict == Err::<(), _>(
                        ConsensusError::<S, P>::Provider(error),
                    ),
                    Ok(None) => verdict matches Err(ConsensusError::Rule(text)) && text@
                        == no_parent_text(block.parent_hash@),
                    Ok(Some(parent)) => match main_hash_in(block.extra_data@) {
                        None => verdict matches Err(ConsensusError::Rule(text)) && text@
                            == bad_block_extra_data_text(block),
                        Some(_) => exists|
                            range: MainchainRange,
                            request: GetTwoWayPegDataRequest,
                            reply: Result<GetTwoWayPegDataResponse, String>,
                        |
                            {
                                &&& #[trigger] covers(range, parent@, block.extra_data@)
                                &&& asks_for_peg_data(
                                    request,
                                    sidechain_id,
                                    range.start,
                                    range.end@,
                                )
                                &&& #[trigger] call_ensures(rpc, (request,), reply)
                                &&& deposits_verdict(
                                    verdict,
                                    block,
                                    range,
                                    after_call(
                                        reply,
                                        |response: GetTwoWayPegDataResponse|
                                            deposits_in(response),
                                    ),
                                )
                            },
                    },
                }
            },
    }
}

/// The checks of sidechain `sidechain_id` that come on top of the standard Ethereum ones:
/// - each block's hash is BIP301 blind-merge-mining committed in the Bitcoin mainchain block
///   referenced by its `extraData` field, and
/// - the block's EIP-4895 withdrawals *begin* with exactly the BIP300 deposits any node can
///   independently recompute for the mainchain range `(parent's extraData, this block's
///   extraData]` from the enforcer.
///
/// Only that deposit *prefix* is verified: whatever else a block withdraws is not checked.
#[derive(Debug, Clone)]
pub struct Bip300301Consensus {
    pub enforcer: EnforcerClient,
    pub sidechain_id: u32,
}

impl Bip300301Consensus {
    pub fn new(enforcer: EnforcerClient, sidechain_id: u32) -> (consensus: Self)
        ensures
            consensus.enforcer == enforcer,
            consensus.sidechain_id == sidechain_id,
    {
        Bip300301Consensus { enforcer, sidechain_id }
    }

    /// Validates a header on which the standard checks gave the verdict `standard`. `rpc` is the
    /// remote call that asks for a commitment.
    pub fn validate_header<R, S, P>(
        &self,
        standard: Result<(), S>,
        header: &HeaderSummary,
        rpc: R,
    ) -> (verdict: Result<(), ConsensusError<S, P>>) where
        R: FnOnce(GetBmmHStarCommitmentRequest) -> Result<GetBmmHStarCommitmentResponse, String>,

        requires
            standard is Ok && main_hash_in(header.extra_data@) is Some ==> forall|
                request: GetBmmHStarCommitmentRequest,
            |
                asks_for_commitment(request, header.extra_data@, self.sidechain_id) ==> #[trigger]
                call_requires(rpc, (request,)),
        ensures
            header_outcome(verdict, standard, *header, self.sidechain_id, rpc),
    {
        if let Err(error) = standard {
            return Err(ConsensusError::Standard(error));
        }
        match main_hash(&header.extra_data) {
            None => Err(ConsensusError::Rule(print_bad_extra_data(header))),
            Some(prev_main_hash) => judge_header(
                header,
                self.enforcer.is_committed(rpc, header.hash, prev_main_hash, self.sidechain_id),
            ),
        }
    }

    /// Validates a block on which the standard checks after execution gave the verdict `standard`.
    /// `parent_extra_data` looks up the `extraData` of the header with a given hash; `rpc` is the
    /// remote call that asks for peg events.
    pub fn validate_block_post_execution<R, H, S, P>(
        &self,
        standard: Result<(), S>,
        block: &BlockSummary,
        parent_extra_data: H,
        rpc: R,
    ) -> (verdict: Result<(), ConsensusError<S, P>>) where
        H: FnOnce([u8; 32]) -> Result<Option<Vec<u8>>, P>,
        R: FnOnce(GetTwoWayPegDataRequest) -> Result<GetTwoWayPegDataResponse, String>,

        requires
            standard is Ok ==> call_requires(parent_extra_data, (block.parent_hash,)),
            standard is Ok ==> forall|
                parent: Vec<u8>,
                range: MainchainRange,
                request: GetTwoWayPegDataRequest,
            |
                {
                    &&& #[trigger] call_ensures(
                        parent_extra_data,
                        (block.parent_hash,),
                        Ok(Some(parent)),
                    )
                    &&& #[trigger] covers(range, parent@, block.extra_data@)
                    &&& #[trigger] asks_for_peg_data(
                        request,
                        self.sidechain_id,
                        range.start,
                        range.end@,
                    )
                } ==> call_requires(rpc, (request,)),
        ensures
            block_outcome(verdict, standard, *block, self.sidechain_id, parent_extra_data, rpc),
    {
        if let Err(error) = standard {
            return Err(ConsensusError::Standard(error));
        }
        let parent = match parent_extra_data(block.parent_hash) {
            Err(error) => {
                return Err(ConsensusError::Provider(error));
            },
            Ok(None) => {
                return Err(
                    ConsensusError::Rule(
                        "parent header ".to_owned().concat(
                            print_hash(&block.parent_hash).as_str(),
                        ).concat(" not found"),
                    ),
                );
            },
            Ok(Some(parent)) => parent,
        };
        match covered_range(&parent, &block.extra_data) {
            None => Err(
                ConsensusError::Rule(
                    "block ".to_owned().concat(print_hash(&block.hash).as_str()).concat(
                        " extraData must be exactly 32 bytes",
                    ),
                ),
            ),
            Some(range) => judge_deposits(
                block,
                &range,
                self.enforcer.deposits(rpc, self.sidechain_id, range.start, range.end),
            ),
        }
    }
}

/// What is said of a header whose `extraData` names no mainchain block.
fn print_bad_extra_data(header: &HeaderSummary) -> (text: String)
    ensures
        text@ == bad_extra_data_text(*header),
{
    "block ".to_owned().concat(print_hash(&header.hash).as_str()).concat(" (number ").concat(
        decimal_text(header.number).as_str(),
    ).concat(
        ") extraData must be exactly 32 bytes (the BIP301 mainchain block it was BMM-mined against), got ",
    ).concat(decimal_text(header.extra_data.len() as u64).as_str()).concat(" bytes")
}

/// The verdict on a header whose `extraData` names a mainchain block, given whether that block
/// commits to it.
pub fn judge_header<S, P>(header: &HeaderSummary, committed: Result<bool, EnforcerError>) -> (verdict:
    Result<(), ConsensusError<S, P>>)
    requires
        main_hash_in(header.extra_data@) is Some,
    ensures
        header_verdict(verdict, *header, answered(committed)),
{
    match committed {
        Err(error) => Err(ConsensusError::Enforcer(error)),
        Ok(true) => Ok(()),
        Ok(false) => {
            let prev_main_hash: [u8; 32] = to_array(&header.extra_data);
            Err(
                ConsensusError::Rule(
                    "block ".to_owned().concat(print_hash(&header.hash).as_str()).concat(
                        " (number ",
                    ).concat(decimal_text(header.number).as_str()).concat(
                        ") is not BIP301 BMM-committed in mainchain block ",
                    ).concat(print_hash(&prev_main_hash).as_str()),
                ),
            )
        },
    }
}

/// The verdict on a block's withdrawals, given the deposits of the mainchain range it covers.
pub fn judge_deposits<S, P>(
    block: &BlockSummary,
    range: &MainchainRange,
    expected: Result<Vec<Deposit>, EnforcerError>,
) -> (verdict: Result<(), ConsensusError<S, P>>)
    ensures
        deposits_verdict(verdict, *block, *range, deposits_read(expected)),
{
    let expected = match expected {
        Ok(expected) => expected,
        Err(error) => {
            return Err(ConsensusError::Enforcer(error));
        },
    };
    let none: Vec<Withdrawal> = Vec::new();
    let actual: &Vec<Withdrawal> = match &block.withdrawals {
        Some(withdrawals) => withdrawals,
        None => &none,
    };
    proof {
        assert(withdrawal_views(actual@) =~= block_withdrawals(*block));
    }
    match deposit_prefix_matches(expected.as_slice(), actual.as_slice()) {
        Ok(()) => Ok(()),
        Err(reason) => Err(
            ConsensusError::Rule(
                "block ".to_owned().concat(print_hash(&block.hash).as_str()).concat(
                    " deposit mints don't match mainchain range ",
                ).concat(print_optional_hash(&range.start).as_str()).concat("..=").concat(
                    print_hash(&range.end).as_str(),
                ).concat(": ").concat(reason.as_str()),
            ),
        ),
    }
}

/// Where the withdrawals do not begin with the mints, the refusal tells how many there are of each,
/// or the first place that is wrong.
pub proof fn lemma_mismatch_is_told(
    deposits: Seq<Deposit>,
    withdrawals: Seq<Withdrawal>,
    text: Seq<char>,
    i: int,
)
    requires
        deposits.len() <= u64::MAX,
        mismatch_text(deposit_views(deposits), withdrawal_views(withdrawals), text),
    ensures
        withdrawals.len() < deposits.len() ==> text == "block has "@ + decimal(withdrawals.len())
            + " withdrawal(s), expected at least "@ + decimal(deposits.len())
            + " for its BIP300 deposit mints"@,
        withdrawals.len() >= deposits.len() && 0 <= i < deposits.len() && !mints_in_place(
            deposits[i],
            withdrawals[i],
            i,
        ) && (forall|j: int|
            0 <= j < i ==> mints_in_place(#[trigger] deposits[j], withdrawals[j], j)) ==> text
            == "withdrawal #"@ + decimal(i as nat)
            + " does not match the expected BIP300 deposit mint"@,
{
    if withdrawals.len() >= deposits.len() && 0 <= i < deposits.len() && !mints_in_place(
        deposits[i],
        withdrawals[i],
        i,
    ) && (forall|j: int|
        0 <= j < i ==> mints_in_place(#[trigger] deposits[j], withdrawals[j], j)) {
        let (expected, actual) = (deposit_views(deposits), withdrawal_views(withdrawals));
        let k = choose|k: int| #[trigger]
            is_first_mismatch(expected, actual, k) && text == "withdrawal #"@ + decimal(k as nat)
                + " does not match the expected BIP300 deposit mint"@;
        if k < i {
            assert(mints_in_place(deposits[k], withdrawals[k], k));
            assert(withdrawals[k].address@ =~= deposits[k].address@);
            assert(actual[k] == mints(expected)[k]);
        } else if i < k {
            assert(actual[i] == mints(expected)[i]);
            assert(withdrawals[i]@ == mint_of(i, deposits[i]@));
            assert(withdrawals[i].address@ == deposits[i].address@);
        }
    }
}

/// A header is accepted if and only if the commitment that the mainchain block holds is to this
/// very header, byte for byte.
pub proof fn lemma_header_is_accepted_iff_committed<S, P>(
    verdict: Result<(), ConsensusError<S, P>>,
    header: HeaderSummary,
    response: GetBmmHStarCommitmentResponse,
    hex: String,
    committed: [u8; 32],
)
    requires
        response.result == Some(
            CommitmentResult::Commitment(
                (BmmCommitment { commitment: Some(HexText { hex: Some(hex) }) }),
            ),
        ),
        hex@ == lower_hex(committed@) || hex@ == "0x"@ + lower_hex(committed@),
        header_verdict(
            verdict,
            header,
            after_call(
                Ok::<GetBmmHStarCommitmentResponse, String>(response),
                |response: GetBmmHStarCommitmentResponse|
                    reports_commitment(response, header.hash@),
            ),
        ),
    ensures
        verdict is Ok <==> forall|i: int|
            0 <= i < 32 ==> #[trigger] header.hash@[i] == committed@[i],
        verdict is Err ==> verdict matches Err(ConsensusError::Rule(_)),
{
    lemma_commitment_is_read(response, hex, committed@, header.hash@);
    if forall|i: int| 0 <= i < 32 ==> #[trigger] header.hash@[i] == committed@[i] {
        assert(header.hash@ =~= committed@);
    }
}

/// A header is refused where the mainchain block holds no commitment or is not known, and where the
/// enforcer cannot be asked.
pub proof fn lemma_header_is_refused_without_commitment<S, P>(
    verdict: Result<(), ConsensusError<S, P>>,
    header: HeaderSummary,
    reply: Result<GetBmmHStarCommitmentResponse, String>,
)
    requires
        header_verdict(
            verdict,
            header,
            after_call(
                reply,
                |response: GetBmmHStarCommitmentResponse|
                    reports_commitment(response, header.hash@),
            ),
        ),
    ensures
        reply matches Ok(response) ==> (response.result is None || response.result == Some(
            CommitmentResult::BlockNotFound,
        ) ==> verdict matches Err(ConsensusError::Rule(_))),
        reply matches Ok(response) ==> (response.result matches Some(
            CommitmentResult::Commitment(found),
        ) ==> (found.commitment is None ==> verdict matches Err(ConsensusError::Rule(_)))),
        reply matches Ok(response) ==> (reports_commitment(response, header.hash@) matches Err(
            error,
        ) ==> (verdict matches Err(ConsensusError::Enforcer(told)) && told@ == error)),
        reply matches Err(status) ==> (verdict matches Err(ConsensusError::Enforcer(error))
            && error@ == EnforcerErrorView::Grpc(status@)),
{
    if let Ok(response) = reply {
        lemma_commitment_is_missing(response, header.hash@);
    }
}

/// A block is accepted if and only if its withdrawals mint the deposits of its range, each in its
/// place; a block without a list of withdrawals counts as one with an empty list.
pub proof fn lemma_block_is_accepted_iff_it_mints<S, P>(
    verdict: Result<(), ConsensusError<S, P>>,
    block: BlockSummary,
    range: MainchainRange,
    deposits: Seq<Deposit>,
)
    requires
        deposits.len() <= u64::MAX,
        deposits_verdict(verdict, block, range, Ok(deposit_views(deposits))),
    ensures
        block.withdrawals matches Some(withdrawals) ==> (verdict is Ok <==> {
            &&& deposits.len() <= withdrawals@.len()
            &&& forall|i: int|
                0 <= i < deposits.len() ==> {
                    let (deposit, withdrawal) = (#[trigger] deposits[i], withdrawals@[i]);
                    &&& withdrawal.index == i
                    &&& withdrawal.validator_index == 0
                    &&& withdrawal.address@ == deposit.address@
                    &&& deposit.value_sats * 10 <= 0xFFFF_FFFF_FFFF_FFFF ==> withdrawal.amount
                        == deposit.value_sats * 10
                    &&& deposit.value_sats * 10 > 0xFFFF_FFFF_FFFF_FFFF ==> withdrawal.amount
                        == 0xFFFF_FFFF_FFFF_FFFF
                }
        }),
        block.withdrawals is None ==> (verdict is Ok <==> deposits.len() == 0),
        verdict is Err ==> verdict matches Err(ConsensusError::Rule(_)),
{
    match block.withdrawals {
        Some(withdrawals) => {
            lemma_mints_field_by_field(deposits, withdrawals@);
        },
        None => {
            lemma_mints_field_by_field(deposits, Seq::empty());
            assert(withdrawal_views(Seq::empty()) =~= Seq::empty());
        },
    }
}

/// A block cannot be judged while the deposits cannot be had.
pub proof fn lemma_block_is_refused_without_deposits<S, P>(
    verdict: Result<(), ConsensusError<S, P>>,
    block: BlockSummary,
    range: MainchainRange,
    error: EnforcerErrorView,
)
    requires
        deposits_verdict(verdict, block, range, Err(error)),
    ensures
        verdict matches Err(ConsensusError::Enforcer(e)) && e@ == error,
{
}

/// Every refusal of a block begins by naming the block, and goes on to name the other hash that it
/// is about, or the reason.
pub proof fn lemma_refusals_name_the_block(
    header: HeaderSummary,
    block: BlockSummary,
    range: MainchainRange,
    main_hash: Seq<u8>,
    reason: Seq<char>,
)
    requires
        main_hash.len() == 32,
    ensures
        ("block 0x"@ + lower_hex(header.hash@) + " (number "@ + decimal(
            header.number as nat,
        )).is_prefix_of(bad_extra_data_text(header)),
        ("block 0x"@ + lower_hex(header.hash@) + " (number "@ + decimal(
            header.number as nat,
        )).is_prefix_of(not_committed_text(header, main_hash)),
        ("block 0x"@ + lower_hex(block.hash@)).is_prefix_of(bad_block_extra_data_text(block)),
        ("block 0x"@ + lower_hex(block.hash@)).is_prefix_of(mints_text(block, range, reason)),
        bad_extra_data_text(header).len() > 0,
        ("0x"@ + lower_hex(main_hash)).is_suffix_of(not_committed_text(header, main_hash)),
        ("got "@ + decimal(header.extra_data@.len()) + " bytes"@).is_suffix_of(
            bad_extra_data_text(header),
        ),
        ("..=0x"@ + lower_hex(range.end@) + ": "@ + reason).is_suffix_of(
            mints_text(block, range, reason),
        ),
        no_parent_text(main_hash) == "parent header 0x"@ + lower_hex(main_hash) + " not found"@,
{
    reveal_strlit("block 0x");
    reveal_strlit("block ");
    reveal_strlit("0x");
    reveal_strlit("got ");
    reveal_strlit("..=0x");
    reveal_strlit("..=");
    reveal_strlit("parent header ");
    reveal_strlit("parent header 0x");
    reveal_strlit(
        ") extraData must be exactly 32 bytes (the BIP301 mainchain block it was BMM-mined against), got ",
    );
    let start = "block 0x"@ + lower_hex(header.hash@) + " (number "@ + decimal(
        header.number as nat,
    );
    let n = start.len() as int;
    assert("block 0x"@ =~= "block "@ + "0x"@);
    assert("..=0x"@ =~= "..="@ + "0x"@);
    assert("parent header 0x"@ =~= "parent header "@ + "0x"@);
    let bad = bad_extra_data_text(header);
    assert(bad.take(n) =~= start);
    let not = not_committed_text(header, main_hash);
    assert(not.take(n) =~= start);
    let short = "block 0x"@ + lower_hex(block.hash@);
    let m = short.len() as int;
    assert(bad_block_extra_data_text(block).take(m) =~= short);
    let mints = mints_text(block, range, reason);
    assert(mints.take(m) =~= short);
    let end = "0x"@ + lower_hex(main_hash);
    assert(not.skip(not.len() - end.len()) =~= end);
    let end = "got "@ + decimal(header.extra_data@.len()) + " bytes"@;
    assert(bad.skip(bad.len() - end.len()) =~= end);
    let end = "..=0x"@ + lower_hex(range.end@) + ": "@ + reason;
    assert(mints.skip(mints.len() - end.len()) =~= end);
    assert(no_parent_text(main_hash) =~= "parent header 0x"@ + lower_hex(main_hash)
        + " not found"@);
}

/// A header passes only if the standard checks pass, its `extraData` has 32 bytes, and the
/// enforcer, asked about that very mainchain block and this sidechain, reports this header's hash;
/// and it does pass if every reply reports that.
pub proof fn lemma_header_outcome<R, S, P>(
    verdict: Result<(), ConsensusError<S, P>>,
    standard: Result<(), S>,
    header: HeaderSummary,
    sidechain_id: u32,
    rpc: R,
) where R: FnOnce(GetBmmHStarCommitmentRequest) -> Result<GetBmmHStarCommitmentResponse, String>
    requires
        header_outcome(verdict, standard, header, sidechain_id, rpc),
    ensures
        standard matches Err(error) ==> verdict == Err::<(), _>(
            ConsensusError::<S, P>::Standard(error),
        ),
        standard is Ok && header.extra_data@.len() != 32 ==> verdict matches Err(
            ConsensusError::Rule(_),
        ),
        verdict is Ok ==> standard is Ok && header.extra_data@.len() == 32 && exists|
            request: GetBmmHStarCommitmentRequest,
            response: GetBmmHStarCommitmentResponse,
        |
            {
                &&& #[trigger] call_ensures(rpc, (request,), Ok(response))
                &&& request.block_hash matches Some(text) && text.hex matches Some(hex) && hex@
                    == lower_hex(header.extra_data@)
                &&& request.sidechain_id == Some(sidechain_id)
                &&& request.max_ancestors is None
                &&& reports_commitment(response, header.hash@) == Ok::<bool, EnforcerErrorView>(
                    true,
                )
            },
        standard is Ok && header.extra_data@.len() == 32 && (forall|
            request: GetBmmHStarCommitmentRequest,
            reply: Result<GetBmmHStarCommitmentResponse, String>,
        | #[trigger]
            call_ensures(rpc, (request,), reply) ==> (reply matches Ok(response)
                && reports_commitment(response, header.hash@) == Ok::<bool, EnforcerErrorView>(
                true,
            ))) ==> verdict is Ok,
{
    if standard is Ok && header.extra_data@.len() == 32 {
        let (request, reply) = choose|
            request: GetBmmHStarCommitmentRequest,
            reply: Result<GetBmmHStarCommitmentResponse, String>,
        |
            {
                &&& asks_for_commitment(request, header.extra_data@, sidechain_id)
                &&& #[trigger] call_ensures(rpc, (request,), reply)
                &&& header_verdict(
                    verdict,
                    header,
                    after_call(
                        reply,
                        |response: GetBmmHStarCommitmentResponse|
                            reports_commitment(response, header.hash@),
                    ),
                )
            };
        if let Ok(response) = reply {
            assert(call_ensures(rpc, (request,), Ok(response)));
        }
    }
}

/// A block passes only if the standard checks pass, its parent is found, its `extraData` has 32
/// bytes, and the enforcer, asked about the range between the two blocks' `extraData` and this
/// sidechain, replies with deposits that the block mints; and it does pass if all of that is so
/// whatever is found and replied.
pub proof fn lemma_block_outcome<R, H, S, P>(
    verdict: Result<(), ConsensusError<S, P>>,
    standard: Result<(), S>,
    block: BlockSummary,
    sidechain_id: u32,
    parent_extra_data: H,
    rpc: R,
) where
    H: FnOnce([u8; 32]) -> Result<Option<Vec<u8>>, P>,
    R: FnOnce(GetTwoWayPegDataRequest) -> Result<GetTwoWayPegDataResponse, String>,

    requires
        block_outcome(verdict, standard, block, sidechain_id, parent_extra_data, rpc),
    ensures
        standard matches Err(error) ==> verdict == Err::<(), _>(
            ConsensusError::<S, P>::Standard(error),
        ),
        verdict matches Err(ConsensusError::Provider(error)) ==> call_ensures(
            parent_extra_data,
            (block.parent_hash,),
            Err(error),
        ),
        verdict is Ok ==> standard is Ok && block.extra_data@.len() == 32 && exists|
            parent: Vec<u8>,
            request: GetTwoWayPegDataRequest,
            response: GetTwoWayPegDataResponse,
        |
            {
                &&& #[trigger] call_ensures(
                    parent_extra_data,
                    (block.parent_hash,),
                    Ok(Some(parent)),
                )
                &&& #[trigger] call_ensures(rpc, (request,), Ok(response))
                &&& request.sidechain_id == Some(sidechain_id)
                &&& request.end_block_hash matches Some(text) && text.hex matches Some(hex) && hex@
                    == lower_hex(block.extra_data@)
                &&& parent@.len() != 32 ==> request.start_block_hash is None
                &&& parent@.len() == 32 ==> (request.start_block_hash matches Some(text)
                    && text.hex matches Some(hex) && hex@ == lower_hex(parent@))
                &&& deposits_in(response) matches Ok(deposits) && begins_with_mints(
                    deposits,
                    block_withdrawals(block),
                )
            },
        standard is Ok && block.extra_data@.len() == 32 && (forall|
            found: Result<Option<Vec<u8>>, P>,
        | #[trigger]
            call_ensures(parent_extra_data, (block.parent_hash,), found) ==> found matches Ok(
                Some(_),
            )) && (forall|
            request: GetTwoWayPegDataRequest,
            reply: Result<GetTwoWayPegDataResponse, String>,
        | #[trigger]
            call_ensures(rpc, (request,), reply) ==> (reply matches Ok(response) && deposits_in(
                response,
            ) matches Ok(deposits) && begins_with_mints(deposits, block_withdrawals(block))))
            ==> verdict is Ok,
{
    if standard is Ok {
        let found = choose|found: Result<Option<Vec<u8>>, P>|
            {
                &&& #[trigger] call_ensures(parent_extra_data, (block.parent_hash,), found)
                &&& match found {
                    Err(error) => verdict == Err::<(), _>(
                        ConsensusError::<S, P>::Provider(error),
                    ),
                    Ok(None) => verdict matches Err(ConsensusError::Rule(text)) && text@
                        == no_parent_text(block.parent_hash@),
                    Ok(Some(parent)) => match main_hash_in(block.extra_data@) {
                        None => verdict matches Err(ConsensusError::Rule(text)) && text@
                            == bad_block_extra_data_text(block),
                        Some(_) => exists|
                            range: MainchainRange,
                            request: GetTwoWayPegDataRequest,
                            reply: Result<GetTwoWayPegDataResponse, String>,
                        |
                            {
                                &&& #[trigger] covers(range, parent@, block.extra_data@)
                                &&& asks_for_peg_data(
                                    request,
                                    sidechain_id,
                                    range.start,
                                    range.end@,
                                )
                                &&& #[trigger] call_ensures(rpc, (request,), reply)
                                &&& deposits_verdict(
                                    verdict,
                                    block,
                                    range,
                                    after_call(
                                        reply,
                                        |response: GetTwoWayPegDataResponse| deposits_in(response),
                                    ),
                                )
                            },
                    },
                }
            };
        if let Ok(Some(parent)) = found {
            assert(call_ensures(parent_extra_data, (block.parent_hash,), Ok(Some(parent))));
            if block.extra_data@.len() == 32 {
                let (range, request, reply) = choose|
                    range: MainchainRange,
                    request: GetTwoWayPegDataRequest,
                    reply: Result<GetTwoWayPegDataResponse, String>,
                |
                    {
                        &&& #[trigger] covers(range, parent@, block.extra_data@)
                        &&& asks_for_peg_data(request, sidechain_id, range.start, range.end@)
                        &&& #[trigger] call_ensures(rpc, (request,), reply)
                        &&& deposits_verdict(
                            verdict,
                            block,
                            range,
                            after_call(
                                reply,
                                |response: GetTwoWayPegDataResponse| deposits_in(response),
                            ),
                        )
                    };
                if let Ok(response) = reply {
                    assert(call_ensures(rpc, (request,), Ok(response)));
                }
            }
        } else if let Err(error) = found {
            assert(call_ensures(parent_extra_data, (block.parent_hash,), Err(error)));
        }
    }
}

} // verus!
