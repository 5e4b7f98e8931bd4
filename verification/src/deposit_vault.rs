//! Credits BIP300 deposits (Bitcoin mainchain -> this sidechain) onto `DepositVault` by a system
//! call, which every node computes from the same mainchain data.

use vstd::prelude::*;
use vstd::string::*;

use crate::enforcer::{deposit_views, Deposit, DepositView};
use crate::hash::{keccak, keccak256};
use crate::words::{
    be_bytes, be_nat, byte_capacity, extend_bytes, lemma_be_bytes_injective, lemma_be_bytes_len,
    lemma_be_nat_of_be_bytes, lemma_byte_capacity_positive,
};

verus! {

/// The `DepositVault` predeploy address.
pub const DEPOSIT_VAULT_ADDRESS: [u8; 20] = [
    0, 0, 0, 0, 0, 0, 0, 0, 0, 0, 0, 0, 0, 0, 0, 0, 0, 0, 0xd3, 0x00,
];

/// The words of an array of addresses: each in the low-order 20 bytes of its word.
pub open spec fn address_words(addresses: Seq<Seq<u8>>) -> Seq<u8>
    decreases addresses.len(),
{
    if addresses.len() == 0 {
        Seq::empty()
    } else {
        address_words(addresses.drop_last()) + be_bytes(0, 12) + addresses.last()
    }
}

/// The words of an array of numbers.
pub open spec fn number_words(numbers: Seq<u64>) -> Seq<u8>
    decreases numbers.len(),
{
    if numbers.len() == 0 {
        Seq::empty()
    } else {
        number_words(numbers.drop_last()) + be_bytes(numbers.last() as nat, 32)
    }
}

/// The ABI encoding of the arguments `(address[], uint256[])`: where each array begins, then each
/// array as its length and its words.
pub open spec fn abi_arrays(addresses: Seq<Seq<u8>>, numbers: Seq<u64>) -> Seq<u8> {
    be_bytes(64, 32) + be_bytes(96 + 32 * addresses.len(), 32) + be_bytes(addresses.len(), 32)
        + address_words(addresses) + be_bytes(numbers.len(), 32) + number_words(numbers)
}

/// The first bytes of a call of `systemCreditDeposits`.
pub open spec fn credit_selector() -> Seq<u8> {
    keccak("systemCreditDeposits(address[],uint256[])".spec_bytes()).take(4)
}

/// The recipients of `deposits`.
pub open spec fn recipients(deposits: Seq<DepositView>) -> Seq<Seq<u8>> {
    deposits.map_values(|deposit: DepositView| deposit.address)
}

/// The amounts of `deposits`.
pub open spec fn amounts(deposits: Seq<DepositView>) -> Seq<u64> {
    deposits.map_values(|deposit: DepositView| deposit.value_sats)
}

/// The call `systemCreditDeposits(recipients, amountsSats)` for `deposits`.
pub open spec fn credit_call(selector: Seq<u8>, deposits: Seq<DepositView>) -> Seq<u8> {
    selector + abi_arrays(recipients(deposits), amounts(deposits))
}

/// The number in the word at `at`.
pub open spec fn number_at(arguments: Seq<u8>, at: int) -> nat {
    be_nat(arguments.subrange(at, at + 32))
}

/// The deposits that a call of `systemCreditDeposits` credits. Its first two words tell where the
/// recipients and the amounts begin; each array begins with its length.
pub open spec fn decode_credit_call(calldata: Seq<u8>) -> Seq<DepositView> {
    let arguments = calldata.skip(4);
    let to = number_at(arguments, 0) as int;
    let of = number_at(arguments, 32) as int;
    Seq::new(
        number_at(arguments, to),
        |i: int|
            DepositView {
                address: arguments.subrange(to + 32 + 32 * i + 12, to + 32 + 32 * i + 32),
                value_sats: number_at(arguments, of + 32 + 32 * i) as u64,
            },
    )
}

/// Whether a call for this many deposits fits in memory.
pub open spec fn fits_in_memory(count: nat) -> bool {
    132 + 64 * count <= isize::MAX
}

/// Calls `alloy_sol_types::SolType::abi_encode_sequence` for `(address[], uint256[])`, which lays
/// the two arrays out one after the other behind their offsets.
#[verifier::external_body]
fn abi_encode_arrays(addresses: Vec<[u8; 20]>, numbers: Vec<u64>) -> (encoded: Vec<u8>)
    requires
        132 + 32 * addresses@.len() + 32 * numbers@.len() <= isize::MAX,
    ensures
        encoded@ == abi_arrays(
            addresses@.map_values(|address: [u8; 20]| address@),
            numbers@,
        ),
{
    let numbers: Vec<_> = numbers.into_iter().map(alloy_primitives::U256::from).collect();
    <(
        alloy_sol_types::sol_data::Array<alloy_sol_types::sol_data::Address>,
        alloy_sol_types::sol_data::Array<alloy_sol_types::sol_data::Uint<256>>,
    ) as alloy_sol_types::SolType>::abi_encode_sequence(&(addresses, numbers))
}

/// The call that credits `deposits`, for a given selector.
pub fn credit_call_data(selector: [u8; 4], deposits: &[Deposit]) -> (calldata: Vec<u8>)
    requires
        fits_in_memory(deposits@.len()),
    ensures
        calldata@ == credit_call(selector@, deposit_views(deposits@)),
{
    let mut addresses: Vec<[u8; 20]> = Vec::new();
    let mut numbers: Vec<u64> = Vec::new();
    let mut i: usize = 0;
    while i < deposits.len()
        invariant
            i <= deposits@.len(),
            addresses@.len() == i,
            numbers@.len() == i,
            forall|k: int| 0 <= k < i ==> addresses@[k] == (#[trigger] deposits@[k]).address,
            forall|k: int| 0 <= k < i ==> numbers@[k] == (#[trigger] deposits@[k]).value_sats,
        decreases deposits@.len() - i,
    {
        addresses.push(deposits[i].address);
        numbers.push(deposits[i].value_sats);
        i = i + 1;
    }
    proof {
        let views = deposit_views(deposits@);
        assert(addresses@.map_values(|address: [u8; 20]| address@) =~= recipients(views));
        assert(numbers@ =~= amounts(views));
    }
    let mut calldata = vstd::slice::slice_to_vec(selector.as_slice());
    extend_bytes(&mut calldata, abi_encode_arrays(addresses, numbers).as_slice());
    calldata
}

/// The first bytes of a call of `systemCreditDeposits`.
fn system_credit_deposits_selector() -> (selector: [u8; 4])
    ensures
        selector@ == credit_selector(),
{
    let digest = keccak256("systemCreditDeposits(address[],uint256[])".as_bytes());
    let selector: [u8; 4] = [digest[0], digest[1], digest[2], digest[3]];
    proof {
        assert(selector@ =~= credit_selector());
    }
    selector
}

/// ABI-encodes `deposits` as a `systemCreditDeposits` call. Returns `None` if `deposits` is empty
/// (nothing to credit: the caller can skip the system call entirely for this block).
pub fn deposits_calldata(deposits: &[Deposit]) -> (calldata: Option<Vec<u8>>)
    requires
        fits_in_memory(deposits@.len()),
    ensures
        match calldata {
            None => deposits@.len() == 0,
            Some(calldata) => {
                &&& deposits@.len() > 0
                &&& calldata@ == credit_call(credit_selector(), deposit_views(deposits@))
                &&& calldata@.take(4) == credit_selector()
                &&& decode_credit_call(calldata@) == deposit_views(deposits@)
            },
        },
{
    if deposits.len() == 0 {
        return None;
    }
    let selector = system_credit_deposits_selector();
    proof {
        let views = deposit_views(deposits@);
        assert forall|i: int| 0 <= i < views.len() implies (#[trigger] views[i]).address.len()
            == 20 by {
            assert(views[i] == deposits@[i]@);
        }
        lemma_credit_call_roundtrip(selector@, views);
    }
    Some(credit_call_data(selector, deposits))
}

proof fn lemma_address_words(addresses: Seq<Seq<u8>>)
    requires
        forall|i: int| 0 <= i < addresses.len() ==> (#[trigger] addresses[i]).len() == 20,
    ensures
        address_words(addresses).len() == 32 * addresses.len(),
    decreases addresses.len(),
{
    if addresses.len() > 0 {
        lemma_address_words(addresses.drop_last());
        lemma_be_bytes_len(0, 12);
        assert(addresses[addresses.len() - 1].len() == 20);
    }
}

proof fn lemma_number_words(numbers: Seq<u64>)
    ensures
        number_words(numbers).len() == 32 * numbers.len(),
    decreases numbers.len(),
{
    if numbers.len() > 0 {
        lemma_number_words(numbers.drop_last());
        lemma_be_bytes_len(numbers.last() as nat, 32);
    }
}

proof fn lemma_address_at(addresses: Seq<Seq<u8>>, i: int)
    requires
        0 <= i < addresses.len(),
        forall|k: int| 0 <= k < addresses.len() ==> (#[trigger] addresses[k]).len() == 20,
    ensures
        address_words(addresses).subrange(32 * i + 12, 32 * i + 32) == addresses[i],
    decreases addresses.len(),
{
    let rest = addresses.drop_last();
    lemma_address_words(addresses);
    lemma_address_words(rest);
    lemma_be_bytes_len(0, 12);
    let words = address_words(addresses);
    if i < rest.len() {
        lemma_address_at(rest, i);
        assert(words.subrange(32 * i + 12, 32 * i + 32) =~= address_words(rest).subrange(
            32 * i + 12,
            32 * i + 32,
        ));
    } else {
        assert(words.subrange(32 * i + 12, 32 * i + 32) =~= addresses[i]);
    }
}

proof fn lemma_number_word_at(numbers: Seq<u64>, i: int)
    requires
        0 <= i < numbers.len(),
    ensures
        number_words(numbers).subrange(32 * i, 32 * i + 32) == be_bytes(numbers[i] as nat, 32),
    decreases numbers.len(),
{
    let rest = numbers.drop_last();
    lemma_number_words(numbers);
    lemma_number_words(rest);
    lemma_be_bytes_len(numbers.last() as nat, 32);
    let words = number_words(numbers);
    if i < rest.len() {
        lemma_number_word_at(rest, i);
        assert(words.subrange(32 * i, 32 * i + 32) =~= number_words(rest).subrange(
            32 * i,
            32 * i + 32,
        ));
    } else {
        assert(words.subrange(32 * i, 32 * i + 32) =~= be_bytes(numbers[i] as nat, 32));
    }
}

proof fn lemma_number_at(arguments: Seq<u8>, at: int, number: nat)
    requires
        arguments.subrange(at, at + 32) == be_bytes(number, 32),
        number <= u64::MAX,
    ensures
        number_at(arguments, at) == number,
{
    reveal_with_fuel(byte_capacity, 33);
    lemma_be_nat_of_be_bytes(number, 32);
    vstd::arithmetic::div_mod::lemma_small_mod(number, byte_capacity(32));
}

/// A credit call decodes to the deposits that it was made for, recipients and amounts in order,
/// with as many amounts as recipients.
pub proof fn lemma_credit_call_roundtrip(selector: Seq<u8>, deposits: Seq<DepositView>)
    requires
        selector.len() == 4,
        forall|i: int| 0 <= i < deposits.len() ==> (#[trigger] deposits[i]).address.len() == 20,
        fits_in_memory(deposits.len()),
    ensures
        ({
            let call = credit_call(selector, deposits);
            let arguments = call.skip(4);
            &&& call.take(4) == selector
            &&& decode_credit_call(call) == deposits
            &&& number_at(arguments, number_at(arguments, 32) as int) == deposits.len()
        }),
{
    let (to, of) = (recipients(deposits), amounts(deposits));
    let n = deposits.len();
    assert forall|i: int| 0 <= i < to.len() implies (#[trigger] to[i]).len() == 20 by {
        assert(deposits[i].address.len() == 20);
    }
    let call = credit_call(selector, deposits);
    let arguments = call.skip(4);
    assert(call.take(4) =~= selector);
    assert(arguments =~= abi_arrays(to, of));
    lemma_address_words(to);
    lemma_number_words(of);
    lemma_be_bytes_len(64, 32);
    lemma_be_bytes_len(96 + 32 * n, 32);
    lemma_be_bytes_len(n, 32);
    assert(arguments.subrange(0, 32) =~= be_bytes(64, 32));
    lemma_number_at(arguments, 0, 64);
    assert(arguments.subrange(32, 64) =~= be_bytes(96 + 32 * n, 32));
    lemma_number_at(arguments, 32, 96 + 32 * n);
    assert(arguments.subrange(64, 96) =~= be_bytes(n, 32));
    lemma_number_at(arguments, 64, n);
    let second = 96 + 32 * n as int;
    assert(arguments.subrange(second, second + 32) =~= be_bytes(n, 32));
    lemma_number_at(arguments, second, n);
    let decoded = decode_credit_call(call);
    assert forall|i: int| 0 <= i < n implies decoded[i] == deposits[i] by {
        lemma_address_at(to, i);
        assert(arguments.subrange(96 + 32 * i + 12, 96 + 32 * i + 32) =~= address_words(
            to,
        ).subrange(32 * i + 12, 32 * i + 32));
        lemma_number_word_at(of, i);
        let at = second + 32 + 32 * i;
        assert(arguments.subrange(at, at + 32) =~= number_words(of).subrange(
            32 * i,
            32 * i + 32,
        ));
        lemma_number_at(arguments, at, of[i] as nat);
        assert(decoded[i] =~= deposits[i]);
    }
    assert(decoded =~= deposits);
}

proof fn lemma_address_words_injective(a: Seq<Seq<u8>>, b: Seq<Seq<u8>>)
    requires
        forall|i: int| 0 <= i < a.len() ==> (#[trigger] a[i]).len() == 20,
        forall|i: int| 0 <= i < b.len() ==> (#[trigger] b[i]).len() == 20,
        address_words(a) == address_words(b),
    ensures
        a == b,
    decreases a.len(),
{
    lemma_address_words(a);
    lemma_address_words(b);
    if a.len() > 0 {
        let (rest_a, rest_b) = (address_words(a.drop_last()), address_words(b.drop_last()));
        lemma_address_words(a.drop_last());
        lemma_address_words(b.drop_last());
        lemma_be_bytes_len(0, 12);
        let n = rest_a.len() as int;
        assert(address_words(a).take(n) =~= rest_a);
        assert(address_words(b).take(n) =~= rest_b);
        assert(address_words(a).skip(n + 12) =~= a.last());
        assert(address_words(b).skip(n + 12) =~= b.last());
        lemma_address_words_injective(a.drop_last(), b.drop_last());
        assert(a =~= a.drop_last().push(a.last()));
        assert(b =~= b.drop_last().push(b.last()));
    } else {
        assert(a =~= b);
    }
}

proof fn lemma_number_words_injective(a: Seq<u64>, b: Seq<u64>)
    requires
        number_words(a) == number_words(b),
    ensures
        a == b,
    decreases a.len(),
{
    lemma_number_words(a);
    lemma_number_words(b);
    if a.len() > 0 {
        let (rest_a, rest_b) = (number_words(a.drop_last()), number_words(b.drop_last()));
        lemma_number_words(a.drop_last());
        lemma_number_words(b.drop_last());
        lemma_be_bytes_len(a.last() as nat, 32);
        lemma_be_bytes_len(b.last() as nat, 32);
        let n = rest_a.len() as int;
        assert(number_words(a).take(n) =~= rest_a);
        assert(number_words(b).take(n) =~= rest_b);
        assert(number_words(a).skip(n) =~= be_bytes(a.last() as nat, 32));
        assert(number_words(b).skip(n) =~= be_bytes(b.last() as nat, 32));
        lemma_number_words_injective(a.drop_last(), b.drop_last());
        reveal_with_fuel(byte_capacity, 33);
        lemma_be_bytes_injective(a.last() as nat, b.last() as nat, 32);
        assert(a =~= a.drop_last().push(a.last()));
        assert(b =~= b.drop_last().push(b.last()));
    } else {
        assert(a =~= b);
    }
}

/// A credit call tells which deposits it credits: calls for different deposits differ.
pub proof fn lemma_credit_call_injective(
    selector: Seq<u8>,
    a: Seq<DepositView>,
    b: Seq<DepositView>,
)
    requires
        forall|i: int| 0 <= i < a.len() ==> (#[trigger] a[i]).address.len() == 20,
        forall|i: int| 0 <= i < b.len() ==> (#[trigger] b[i]).address.len() == 20,
        credit_call(selector, a) == credit_call(selector, b),
    ensures
        a == b,
{
    let (to_a, to_b) = (recipients(a), recipients(b));
    let (of_a, of_b) = (amounts(a), amounts(b));
    assert forall|i: int| 0 <= i < to_a.len() implies (#[trigger] to_a[i]).len() == 20 by {
        assert(a[i].address.len() == 20);
    }
    assert forall|i: int| 0 <= i < to_b.len() implies (#[trigger] to_b[i]).len() == 20 by {
        assert(b[i].address.len() == 20);
    }
    lemma_address_words(to_a);
    lemma_address_words(to_b);
    lemma_number_words(of_a);
    lemma_number_words(of_b);
    lemma_be_bytes_len(64, 32);
    lemma_be_bytes_len(96 + 32 * to_a.len(), 32);
    lemma_be_bytes_len(96 + 32 * to_b.len(), 32);
    lemma_be_bytes_len(to_a.len(), 32);
    lemma_be_bytes_len(to_b.len(), 32);
    let (call_a, call_b) = (credit_call(selector, a), credit_call(selector, b));
    let s = selector.len() as int;
    assert(call_a.len() == s + 128 + 64 * a.len());
    assert(call_b.len() == s + 128 + 64 * b.len());
    let n = 32 * a.len() as int;
    assert(call_a.subrange(s + 96, s + 96 + n) =~= address_words(to_a));
    assert(call_b.subrange(s + 96, s + 96 + n) =~= address_words(to_b));
    assert(call_a.skip(s + 128 + n) =~= number_words(of_a));
    assert(call_b.skip(s + 128 + n) =~= number_words(of_b));
    lemma_address_words_injective(to_a, to_b);
    lemma_number_words_injective(of_a, of_b);
    assert forall|i: int| 0 <= i < a.len() implies a[i] == b[i] by {
        assert(to_a[i] == to_b[i]);
        assert(of_a[i] == of_b[i]);
    }
    assert(a =~= b);
}

/// Where everything stands in a credit call. Behind the selector come the places of the two arrays,
/// 64 and past the recipients; then the number of recipients and each recipient in the low-order 20
/// bytes of a word; then the number of amounts and each amount in a word.
pub proof fn lemma_credit_call_places(selector: Seq<u8>, deposits: Seq<DepositView>)
    requires
        selector.len() == 4,
        forall|i: int| 0 <= i < deposits.len() ==> (#[trigger] deposits[i]).address.len() == 20,
        fits_in_memory(deposits.len()),
    ensures
        ({
            let call = credit_call(selector, deposits);
            let n = deposits.len() as int;
            &&& call.len() == 132 + 64 * n
            &&& be_nat(call.subrange(4, 36)) == 64
            &&& be_nat(call.subrange(36, 68)) == 96 + 32 * n
            &&& be_nat(call.subrange(68, 100)) == n
            &&& be_nat(call.subrange(100 + 32 * n, 132 + 32 * n)) == n
            &&& forall|i: int|
                0 <= i < n ==> {
                    &&& call.subrange(112 + 32 * i, 132 + 32 * i) == (
                    #[trigger] deposits[i]).address
                    &&& be_nat(call.subrange(100 + 32 * i, 112 + 32 * i)) == 0
                    &&& be_nat(call.subrange(132 + 32 * n + 32 * i, 164 + 32 * n + 32 * i))
                        == deposits[i].value_sats
                }
        }),
{
    let call = credit_call(selector, deposits);
    let arguments = call.skip(4);
    let (to, of) = (recipients(deposits), amounts(deposits));
    let n = deposits.len() as int;
    assert forall|i: int| 0 <= i < to.len() implies (#[trigger] to[i]).len() == 20 by {
        assert(deposits[i].address.len() == 20);
    }
    lemma_address_words(to);
    lemma_number_words(of);
    lemma_be_bytes_len(64, 32);
    lemma_be_bytes_len((96 + 32 * n) as nat, 32);
    lemma_be_bytes_len(n as nat, 32);
    assert(call.subrange(4, 36) =~= be_bytes(64, 32));
    lemma_number_at(call, 4, 64);
    assert(call.subrange(36, 68) =~= be_bytes((96 + 32 * n) as nat, 32));
    lemma_number_at(call, 36, (96 + 32 * n) as nat);
    assert(call.subrange(68, 100) =~= be_bytes(n as nat, 32));
    lemma_number_at(call, 68, n as nat);
    assert(call.subrange(100 + 32 * n, 132 + 32 * n) =~= be_bytes(n as nat, 32));
    lemma_number_at(call, 100 + 32 * n, n as nat);
    assert forall|i: int| 0 <= i < n implies {
        &&& call.subrange(112 + 32 * i, 132 + 32 * i) == (#[trigger] deposits[i]).address
        &&& be_nat(call.subrange(100 + 32 * i, 112 + 32 * i)) == 0
        &&& be_nat(call.subrange(132 + 32 * n + 32 * i, 164 + 32 * n + 32 * i))
            == deposits[i].value_sats
    } by {
        lemma_address_at(to, i);
        assert(call.subrange(112 + 32 * i, 132 + 32 * i) =~= address_words(to).subrange(
            32 * i + 12,
            32 * i + 32,
        ));
        lemma_address_padding(to, i);
        assert(call.subrange(100 + 32 * i, 112 + 32 * i) =~= address_words(to).subrange(
            32 * i,
            32 * i + 12,
        ));
        lemma_be_nat_of_be_bytes(0, 12);
        lemma_byte_capacity_positive(12);
        vstd::arithmetic::div_mod::lemma_small_mod(0, byte_capacity(12));
        lemma_number_word_at(of, i);
        let at = 132 + 32 * n + 32 * i;
        assert(call.subrange(at, at + 32) =~= number_words(of).subrange(32 * i, 32 * i + 32));
        lemma_number_at(call, at, of[i] as nat);
    }
}

proof fn lemma_address_padding(addresses: Seq<Seq<u8>>, i: int)
    requires
        0 <= i < addresses.len(),
        forall|k: int| 0 <= k < addresses.len() ==> (#[trigger] addresses[k]).len() == 20,
    ensures
        address_words(addresses).subrange(32 * i, 32 * i + 12) == be_bytes(0, 12),
    decreases addresses.len(),
{
    let rest = addresses.drop_last();
    lemma_address_words(addresses);
    lemma_address_words(rest);
    lemma_be_bytes_len(0, 12);
    let words = address_words(addresses);
    if i < rest.len() {
        lemma_address_padding(rest, i);
        assert(words.subrange(32 * i, 32 * i + 12) =~= address_words(rest).subrange(
            32 * i,
            32 * i + 12,
        ));
    } else {
        assert(words.subrange(32 * i, 32 * i + 12) =~= be_bytes(0, 12));
    }
}

} // verus!
