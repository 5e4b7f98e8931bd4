//! The withdrawal requests that wait in `WithdrawalRequestQueue`.

use vstd::prelude::*;

use crate::hash::{keccak, keccak256};
use crate::words::{
    add_slot, be_bytes, be_nat, extend_bytes, half_word_to_usize, lemma_be_bytes_of_be_nat,
    lemma_slot_plus_plus, saturate_u64, saturate_usize, slot_plus, u64_word, word_to_u64,
};

verus! {

/// The `WithdrawalRequestQueue` predeploy address.
pub const WITHDRAWAL_REQUEST_QUEUE_ADDRESS: [u8; 20] = [
    0, 0, 0, 0, 0, 0, 0, 0, 0, 0, 0, 0, 0, 0, 0, 0, 0, 0, 0xB3, 0x00,
];

/// Storage slot of `WithdrawalRequestQueue.requestCount`.
pub const REQUEST_COUNT_SLOT: [u8; 32] = [
    0, 0, 0, 0, 0, 0, 0, 0, 0, 0, 0, 0, 0, 0, 0, 0, 0, 0, 0, 0, 0, 0, 0, 0, 0, 0, 0, 0, 0, 0, 0, 0,
];

/// Storage slot of the `WithdrawalRequestQueue.requests` mapping itself (not an entry's slot).
pub const REQUESTS_MAPPING_SLOT: u64 = 1;

/// A single pending withdrawal request read from `WithdrawalRequestQueue`.
#[derive(Debug, PartialEq, Eq)]
pub struct PendingWithdrawal {
    pub index: u64,
    pub requester: [u8; 20],
    pub value_sats: u64,
    pub main_fee_sats: u64,
    /// A raw Bitcoin scriptPubKey.
    pub btc_destination: Vec<u8>,
}

/// What a request holds.
#[verifier::ext_equal]
pub struct RequestView {
    pub index: u64,
    pub requester: Seq<u8>,
    pub value_sats: u64,
    pub main_fee_sats: u64,
    pub btc_destination: Seq<u8>,
}

impl View for PendingWithdrawal {
    type V = RequestView;

    open spec fn view(&self) -> RequestView {
        RequestView {
            index: self.index,
            requester: self.requester@,
            value_sats: self.value_sats,
            main_fee_sats: self.main_fee_sats,
            btc_destination: self.btc_destination@,
        }
    }
}

impl Clone for PendingWithdrawal {
    fn clone(&self) -> (copy: Self)
        ensures
            copy@ == self@,
    {
        let copy = PendingWithdrawal {
            index: self.index,
            requester: self.requester,
            value_sats: self.value_sats,
            main_fee_sats: self.main_fee_sats,
            btc_destination: self.btc_destination.clone(),
        };
        proof {
            assert(copy.btc_destination@ =~= self.btc_destination@);
        }
        copy
    }
}

/// What a list of requests holds.
pub open spec fn request_views(pending: Seq<PendingWithdrawal>) -> Seq<RequestView> {
    pending.map_values(|request: PendingWithdrawal| request@)
}

/// Why the queue could not be read.
#[derive(Debug, Clone, Copy, PartialEq, Eq)]
pub enum QueueError<E> {
    /// The storage could not be read.
    Storage(E),
    /// The word that should begin a byte string announces more inline bytes than a word has.
    InvalidBytesHead,
}

/// The word that an answer stands for: a slot that was never written holds zero.
pub open spec fn word_in<E>(answer: Result<Option<[u8; 32]>, E>) -> Result<Seq<u8>, E> {
    match answer {
        Ok(Some(word)) => Ok(word@),
        Ok(None) => Ok(be_bytes(0, 32)),
        Err(error) => Err(error),
    }
}

/// Whether `storage` may answer `word` when it is asked for `slot` of the queue's account.
pub open spec fn gives<S, E>(storage: S, slot: Seq<u8>, word: Result<Seq<u8>, E>) -> bool where
    S: Fn([u8; 20], [u8; 32]) -> Result<Option<[u8; 32]>, E>,
 {
    exists|at: [u8; 32], answer: Result<Option<[u8; 32]>, E>|
        at@ == slot && #[trigger] call_ensures(
            storage,
            (WITHDRAWAL_REQUEST_QUEUE_ADDRESS, at),
            answer,
        ) && word == word_in(answer)
}

/// Whether every slot of the queue's account may be asked for.
pub open spec fn readable<S, E>(storage: S) -> bool where
    S: Fn([u8; 20], [u8; 32]) -> Result<Option<[u8; 32]>, E>,
 {
    forall|slot: [u8; 32]| #[trigger]
        call_requires(storage, (WITHDRAWAL_REQUEST_QUEUE_ADDRESS, slot))
}

/// What a list of bytes, read or not, holds.
pub open spec fn bytes_read<E>(data: Result<Vec<u8>, E>) -> Result<Seq<u8>, E> {
    match data {
        Ok(data) => Ok(data@),
        Err(error) => Err(error),
    }
}

/// Reads one word of the queue's account.
fn read_word<S, E>(storage: &S, slot: [u8; 32]) -> (word: Result<[u8; 32], E>) where
    S: Fn([u8; 20], [u8; 32]) -> Result<Option<[u8; 32]>, E>,

    requires
        readable(*storage),
    ensures
        gives(
            *storage,
            slot@,
            match word {
                Ok(word) => Ok(word@),
                Err(error) => Err(error),
            },
        ),
{
    let answer = storage(WITHDRAWAL_REQUEST_QUEUE_ADDRESS, slot);
    proof {
        assert(gives(*storage, slot@, word_in(answer)));
    }
    match answer {
        Ok(Some(word)) => Ok(word),
        Ok(None) => Ok(u64_word(0)),
        Err(error) => Err(error),
    }
}

/// Whether `word` can begin a Solidity `bytes` value: if the value is inline, its length fits in
/// the word.
pub open spec fn head_is_valid(word: Seq<u8>) -> bool {
    word[31] % 2 == 0 ==> word[31] / 2 <= 32
}

/// What the head word of a Solidity `bytes` value says: the bytes themselves, or (as the error)
/// how many bytes there are elsewhere.
pub open spec fn decode_head(word: Seq<u8>) -> Result<Seq<u8>, usize> {
    if word[31] % 2 == 0 {
        Ok(word.take(word[31] as int / 2))
    } else {
        Err(saturate_usize(be_nat(word) / 2))
    }
}

/// Whether asking for the word at `slot`, unless reading the earlier ones failed, may make `words`
/// of `earlier`.
pub open spec fn may_read_next_word<S, E>(
    storage: S,
    slot: Seq<u8>,
    earlier: Result<Seq<u8>, E>,
    words: Result<Seq<u8>, E>,
) -> bool where S: Fn([u8; 20], [u8; 32]) -> Result<Option<[u8; 32]>, E> {
    match earlier {
        Err(error) => words == Err::<Seq<u8>, E>(error),
        Ok(earlier) => exists|word: Result<Seq<u8>, E>| #[trigger]
            gives(storage, slot, word) && match word {
                Err(error) => words == Err::<Seq<u8>, E>(error),
                Ok(word) => words == Ok::<Seq<u8>, E>(earlier + word),
            },
    }
}

/// Whether reading `count` words from `slot` on, in order and up to the first failure, may give
/// `words`.
pub open spec fn may_read_words<S, E>(
    storage: S,
    slot: Seq<u8>,
    count: nat,
    words: Result<Seq<u8>, E>,
) -> bool where S: Fn([u8; 20], [u8; 32]) -> Result<Option<[u8; 32]>, E>
    decreases count,
{
    if count == 0 {
        words == Ok::<Seq<u8>, E>(Seq::empty())
    } else {
        exists|earlier: Result<Seq<u8>, E>|
            may_read_words(storage, slot, (count - 1) as nat, earlier)
                && #[trigger] may_read_next_word(
                storage,
                slot_plus(slot, (count - 1) as nat),
                earlier,
                words,
            )
    }
}

/// Whether reading `length` bytes from `slot` on may give `data`: as many words as it takes, cut to
/// the length.
pub open spec fn may_read_chunks<S, E>(
    storage: S,
    slot: Seq<u8>,
    length: nat,
    data: Result<Seq<u8>, E>,
) -> bool where S: Fn([u8; 20], [u8; 32]) -> Result<Option<[u8; 32]>, E> {
    exists|words: Result<Seq<u8>, E>| #[trigger]
        may_read_words(storage, slot, (length + 31) / 32, words) && data == match words {
            Ok(words) => Ok::<Seq<u8>, E>(words.take(length as int)),
            Err(error) => Err::<Seq<u8>, E>(error),
        }
}

/// Whether reading the `bytes` value at `slot` may give `data` after its head word.
pub open spec fn may_read_after_head<S, E>(
    storage: S,
    slot: Seq<u8>,
    head: Result<Seq<u8>, E>,
    data: Result<Seq<u8>, QueueError<E>>,
) -> bool where S: Fn([u8; 20], [u8; 32]) -> Result<Option<[u8; 32]>, E> {
    match head {
        Err(error) => data == Err::<Seq<u8>, _>(QueueError::Storage(error)),
        Ok(head) => if !head_is_valid(head) {
            data == Err::<Seq<u8>, _>(QueueError::<E>::InvalidBytesHead)
        } else {
            match decode_head(head) {
                Ok(inline) => data == Ok::<Seq<u8>, QueueError<E>>(inline),
                Err(length) => exists|chunks: Result<Seq<u8>, E>| #[trigger]
                    may_read_chunks(storage, keccak(slot), length as nat, chunks) && data
                        == match chunks {
                        Ok(chunks) => Ok::<Seq<u8>, QueueError<E>>(chunks),
                        Err(error) => Err::<Seq<u8>, _>(QueueError::Storage(error)),
                    },
            }
        },
    }
}

/// Whether reading the Solidity `bytes` value stored at `slot` may give `data`.
pub open spec fn may_read_bytes<S, E>(
    storage: S,
    slot: Seq<u8>,
    data: Result<Seq<u8>, QueueError<E>>,
) -> bool where S: Fn([u8; 20], [u8; 32]) -> Result<Option<[u8; 32]>, E> {
    exists|head: Result<Seq<u8>, E>| #[trigger]
        gives(storage, slot, head) && may_read_after_head(storage, slot, head, data)
}

/// Decodes the head word of a Solidity dynamic `bytes` value: inline in `word` (left-aligned,
/// with `length * 2` in the low-order byte) if `length <= 31` (returned directly as `Ok`), else
/// `word` holds `length * 2 + 1` and the data starts at `keccak256(slot)` (the length is
/// returned as `Err`, for the caller to then read those subsequent slots).
pub fn decode_bytes_head(word: [u8; 32]) -> (head: Result<Vec<u8>, usize>)
    requires
        head_is_valid(word@),
    ensures
        bytes_read(head) == decode_head(word@),
{
    if word[31] % 2 == 0 {
        let length: usize = (word[31] / 2) as usize;
        let data = vstd::slice::slice_to_vec(
            vstd::slice::slice_subrange(word.as_slice(), 0, length),
        );
        proof {
            assert(data@ =~= word@.take(length as int));
        }
        Ok(data)
    } else {
        Err(half_word_to_usize(&word))
    }
}

/// Reads `length` bytes that are stored in consecutive words from `first_slot` on.
pub fn read_long_bytes<S, E>(storage: &S, first_slot: [u8; 32], length: usize) -> (data: Result<
    Vec<u8>,
    E,
>) where S: Fn([u8; 20], [u8; 32]) -> Result<Option<[u8; 32]>, E>
    requires
        readable(*storage),
    ensures
        may_read_chunks(*storage, first_slot@, length as nat, bytes_read(data)),
{
    let ghost needed: nat = (length as nat + 31) / 32;
    let ghost mut count: nat = 0;
    let mut data: Vec<u8> = Vec::new();
    let mut slot: [u8; 32] = first_slot;
    proof {
        lemma_be_bytes_of_be_nat(first_slot@);
    }
    while data.len() < length
        invariant
            readable(*storage),
            needed == (length as nat + 31) / 32,
            data@.len() == 32 * count,
            count <= needed,
            slot@ == slot_plus(first_slot@, count),
            may_read_words(*storage, first_slot@, count, Ok(data@)),
        decreases needed - count,
    {
        let ghost earlier = Ok::<Seq<u8>, E>(data@);
        let word = match read_word(storage, slot) {
            Ok(word) => word,
            Err(error) => {
                proof {
                    let failed = Err::<Seq<u8>, E>(error);
                    assert(gives(*storage, slot@, failed));
                    assert(may_read_next_word(*storage, slot@, earlier, failed));
                    assert((count + 1 - 1) as nat == count);
                    assert(may_read_words(*storage, first_slot@, count + 1, failed));
                    lemma_read_words_fails(*storage, first_slot@, count + 1, needed, error);
                }
                return Err(error);
            },
        };
        extend_bytes(&mut data, word.as_slice());
        proof {
            let words = Ok::<Seq<u8>, E>(data@);
            assert(gives(*storage, slot@, Ok(word@)));
            assert(may_read_next_word(*storage, slot@, earlier, words));
            assert((count + 1 - 1) as nat == count);
            assert(may_read_words(*storage, first_slot@, count + 1, words));
            lemma_slot_plus_plus(first_slot@, count, 1);
            count = count + 1;
        }
        slot = add_slot(slot, 1);
    }
    let ghost words = data@;
    data.truncate(length);
    proof {
        assert(count == needed);
        assert(may_read_words(*storage, first_slot@, needed, Ok(words)));
        assert(data@ =~= words.take(length as int));
    }
    Ok(data)
}

proof fn lemma_read_words_fails<S, E>(
    storage: S,
    slot: Seq<u8>,
    failed: nat,
    count: nat,
    error: E,
) where S: Fn([u8; 20], [u8; 32]) -> Result<Option<[u8; 32]>, E>
    requires
        failed <= count,
        may_read_words(storage, slot, failed, Err(error)),
    ensures
        may_read_words(storage, slot, count, Err(error)),
    decreases count,
{
    if failed < count {
        lemma_read_words_fails(storage, slot, failed, (count - 1) as nat, error);
        let earlier = Err::<Seq<u8>, E>(error);
        assert(may_read_next_word(
            storage,
            slot_plus(slot, (count - 1) as nat),
            earlier,
            earlier,
        ));
    }
}

/// Reads the Solidity dynamic `bytes` value stored at `slot`, per Solidity's standard encoding
/// (see [`decode_bytes_head`]).
pub fn read_dynamic_bytes<S, E>(storage: &S, slot: [u8; 32]) -> (data: Result<
    Vec<u8>,
    QueueError<E>,
>) where S: Fn([u8; 20], [u8; 32]) -> Result<Option<[u8; 32]>, E>
    requires
        readable(*storage),
    ensures
        may_read_bytes(*storage, slot@, bytes_read(data)),
{
    let head = match read_word(storage, slot) {
        Ok(word) => word,
        Err(error) => {
            return Err(QueueError::Storage(error));
        },
    };
    if head[31] % 2 == 0 && head[31] / 2 > 32 {
        return Err(QueueError::InvalidBytesHead);
    }
    let ghost given = Ok::<Seq<u8>, E>(head@);
    match decode_bytes_head(head) {
        Ok(short) => {
            proof {
                let data = Ok::<Seq<u8>, QueueError<E>>(short@);
                assert(decode_head(head@) == Ok::<Seq<u8>, usize>(short@));
                assert(may_read_after_head(*storage, slot@, given, data));
            }
            Ok(short)
        },
        Err(length) => {
            let chunks = read_long_bytes(storage, keccak256(slot.as_slice()), length);
            let ghost read = bytes_read(chunks);
            let data = match chunks {
                Ok(data) => Ok(data),
                Err(error) => Err(QueueError::Storage(error)),
            };
            proof {
                assert(decode_head(head@) == Err::<Seq<u8>, usize>(length));
                let announced = decode_head(given->Ok_0)->Err_0 as nat;
                assert(may_read_chunks(*storage, keccak(slot@), announced, read));
                assert(bytes_read(data) == match read {
                    Ok(chunks) => Ok::<Seq<u8>, QueueError<E>>(chunks),
                    Err(error) => Err::<Seq<u8>, _>(QueueError::Storage(error)),
                });
                assert(may_read_after_head(*storage, slot@, given, bytes_read(data)));
            }
            data
        },
    }
}

/// The address in the low-order 20 bytes of a storage word.
pub fn word_to_address(word: &[u8; 32]) -> (address: [u8; 20])
    ensures
        address@ == word@.skip(12),
{
    let mut address: [u8; 20] = [0; 20];
    let mut i: usize = 0;
    while i < 20
        invariant
            i <= 20,
            forall|k: int| 0 <= k < i ==> address@[k] == word@[k + 12],
        decreases 20 - i,
    {
        address[i] = word[i + 12];
        i = i + 1;
    }
    proof {
        assert(address@ =~= word@.skip(12));
    }
    address
}

/// What the slot of `requests[index]` is the hash of, per Solidity's `mapping(uint256 => T)`
/// layout: the key and the mapping's own slot, a word each.
pub open spec fn entry_preimage(index: u64) -> Seq<u8> {
    be_bytes(index as nat, 32) + be_bytes(REQUESTS_MAPPING_SLOT as nat, 32)
}

/// The base storage slot of `requests[index]`.
pub open spec fn entry_slot(index: u64) -> Seq<u8> {
    keccak(entry_preimage(index))
}

/// Whether reading the request stored from `base` on (requester, value, fee and destination, one
/// slot each) may give `request`.
pub open spec fn may_read_entry<S, E>(
    storage: S,
    index: u64,
    base: Seq<u8>,
    request: Result<RequestView, QueueError<E>>,
) -> bool where S: Fn([u8; 20], [u8; 32]) -> Result<Option<[u8; 32]>, E> {
    exists|requester: Result<Seq<u8>, E>| #[trigger]
        gives(storage, base, requester) && match requester {
            Err(error) => request == Err::<RequestView, _>(QueueError::Storage(error)),
            Ok(requester) => exists|value: Result<Seq<u8>, E>| #[trigger]
                gives(storage, slot_plus(base, 1), value) && match value {
                    Err(error) => request == Err::<RequestView, _>(QueueError::Storage(error)),
                    Ok(value) => exists|fee: Result<Seq<u8>, E>| #[trigger]
                        gives(storage, slot_plus(base, 2), fee) && match fee {
                            Err(error) => request == Err::<RequestView, _>(
                                QueueError::Storage(error),
                            ),
                            Ok(fee) => exists|destination: Result<Seq<u8>, QueueError<E>>|
                                #[trigger] may_read_bytes(storage, slot_plus(base, 3), destination)
                                    && request == entry_of(
                                    index,
                                    requester,
                                    value,
                                    fee,
                                    destination,
                                ),
                        },
                },
        }
}

/// The request that these words and this destination make up.
pub open spec fn entry_of<E>(
    index: u64,
    requester: Seq<u8>,
    value: Seq<u8>,
    fee: Seq<u8>,
    destination: Result<Seq<u8>, QueueError<E>>,
) -> Result<RequestView, QueueError<E>> {
    match destination {
        Err(error) => Err(error),
        Ok(btc_destination) => Ok(
            RequestView {
                index,
                requester: requester.skip(12),
                value_sats: saturate_u64(be_nat(value)),
                main_fee_sats: saturate_u64(be_nat(fee)),
                btc_destination,
            },
        ),
    }
}

/// Whether reading the first `count` requests of the queue, in order and up to the first failure,
/// may give `requests`.
pub open spec fn may_read_entries<S, E>(
    storage: S,
    count: nat,
    requests: Result<Seq<RequestView>, QueueError<E>>,
) -> bool where S: Fn([u8; 20], [u8; 32]) -> Result<Option<[u8; 32]>, E>
    decreases count,
{
    if count == 0 {
        requests == Ok::<Seq<RequestView>, QueueError<E>>(Seq::empty())
    } else {
        let last = (count - 1) as u64;
        exists|earlier: Result<Seq<RequestView>, QueueError<E>>|
            may_read_entries(storage, (count - 1) as nat, earlier) && #[trigger] may_read_next(
                storage,
                last,
                earlier,
                requests,
            )
    }
}

/// Whether reading the request `index`, unless reading the earlier ones failed, may make
/// `requests` of `earlier`.
pub open spec fn may_read_next<S, E>(
    storage: S,
    index: u64,
    earlier: Result<Seq<RequestView>, QueueError<E>>,
    requests: Result<Seq<RequestView>, QueueError<E>>,
) -> bool where S: Fn([u8; 20], [u8; 32]) -> Result<Option<[u8; 32]>, E> {
    match earlier {
        Err(error) => requests == Err::<Seq<RequestView>, _>(error),
        Ok(earlier) => exists|entry: Result<RequestView, QueueError<E>>| #[trigger]
            may_read_entry(storage, index, entry_slot(index), entry) && match entry {
                Err(error) => requests == Err::<Seq<RequestView>, _>(error),
                Ok(entry) => requests == Ok::<Seq<RequestView>, QueueError<E>>(
                    earlier.push(entry),
                ),
            },
    }
}

/// Whether reading the whole queue may give `requests`.
pub open spec fn may_read_queue<S, E>(
    storage: S,
    requests: Result<Seq<RequestView>, QueueError<E>>,
) -> bool where S: Fn([u8; 20], [u8; 32]) -> Result<Option<[u8; 32]>, E> {
    exists|count: Result<Seq<u8>, E>| #[trigger]
        gives(storage, REQUEST_COUNT_SLOT@, count) && match count {
            Err(error) => requests == Err::<Seq<RequestView>, _>(QueueError::Storage(error)),
            Ok(count) => may_read_entries(storage, saturate_u64(be_nat(count)) as nat, requests),
        }
}

/// What a list of requests, read or not, holds.
pub open spec fn requests_read<E>(
    requests: Result<Vec<PendingWithdrawal>, QueueError<E>>,
) -> Result<Seq<RequestView>, QueueError<E>> {
    match requests {
        Ok(requests) => Ok(request_views(requests@)),
        Err(error) => Err(error),
    }
}

/// The bytes that the slot of `requests[index]` is the hash of.
pub fn requests_entry_preimage(index: u64) -> (preimage: Vec<u8>)
    ensures
        preimage@ == entry_preimage(index),
{
    let mut preimage = vstd::slice::slice_to_vec(u64_word(index).as_slice());
    extend_bytes(&mut preimage, u64_word(REQUESTS_MAPPING_SLOT).as_slice());
    preimage
}

/// The base storage slot of `requests[index]`: `keccak256(abi.encode(index, mapping slot))`.
pub fn requests_entry_slot(index: u64) -> (slot: [u8; 32])
    ensures
        slot@ == entry_slot(index),
{
    keccak256(requests_entry_preimage(index).as_slice())
}

/// Reads the request that is stored from `base` on.
pub fn read_request<S, E>(storage: &S, index: u64, base: [u8; 32]) -> (request: Result<
    PendingWithdrawal,
    QueueError<E>,
>) where S: Fn([u8; 20], [u8; 32]) -> Result<Option<[u8; 32]>, E>
    requires
        readable(*storage),
    ensures
        may_read_entry(
            *storage,
            index,
            base@,
            match request {
                Ok(request) => Ok(request@),
                Err(error) => Err(error),
            },
        ),
{
    let requester = match read_word(storage, base) {
        Ok(word) => word_to_address(&word),
        Err(error) => {
            return Err(QueueError::Storage(error));
        },
    };
    let value_sats: u64 = match read_word(storage, add_slot(base, 1)) {
        Ok(word) => word_to_u64(&word),
        Err(error) => {
            return Err(QueueError::Storage(error));
        },
    };
    let main_fee_sats: u64 = match read_word(storage, add_slot(base, 2)) {
        Ok(word) => word_to_u64(&word),
        Err(error) => {
            return Err(QueueError::Storage(error));
        },
    };
    match read_dynamic_bytes(storage, add_slot(base, 3)) {
        Ok(btc_destination) => Ok(
            PendingWithdrawal { index, requester, value_sats, main_fee_sats, btc_destination },
        ),
        Err(error) => Err(error),
    }
}

proof fn lemma_read_entries_fails<S, E>(
    storage: S,
    failed: nat,
    count: nat,
    error: QueueError<E>,
) where S: Fn([u8; 20], [u8; 32]) -> Result<Option<[u8; 32]>, E>
    requires
        failed <= count,
        may_read_entries(storage, failed, Err(error)),
    ensures
        may_read_entries(storage, count, Err(error)),
    decreases count,
{
    if failed < count {
        lemma_read_entries_fails(storage, failed, (count - 1) as nat, error);
        let earlier = Err::<Seq<RequestView>, QueueError<E>>(error);
        assert(may_read_next(storage, (count - 1) as u64, earlier, earlier));
    }
}

/// Reads every request in `WithdrawalRequestQueue` (`requests[0..requestCount]`) from `storage`,
/// which is asked for slots of accounts.
///
/// The contract does not say which requests have already been bundled, so this always returns the
/// full queue.
pub fn read_pending_withdrawals<S, E>(storage: &S) -> (withdrawals: Result<
    Vec<PendingWithdrawal>,
    QueueError<E>,
>) where S: Fn([u8; 20], [u8; 32]) -> Result<Option<[u8; 32]>, E>
    requires
        readable(*storage),
    ensures
        may_read_queue(*storage, requests_read(withdrawals)),
{
    let count_word = match read_word(storage, REQUEST_COUNT_SLOT) {
        Ok(word) => word,
        Err(error) => {
            return Err(QueueError::Storage(error));
        },
    };
    let request_count: u64 = word_to_u64(&count_word);
    let mut withdrawals: Vec<PendingWithdrawal> = Vec::new();
    let mut index: u64 = 0;
    proof {
        assert(request_views(withdrawals@) =~= Seq::empty());
    }
    while index < request_count
        invariant
            index <= request_count,
            readable(*storage),
            gives(*storage, REQUEST_COUNT_SLOT@, Ok(count_word@)),
            request_count == saturate_u64(be_nat(count_word@)),
            may_read_entries(*storage, index as nat, Ok(request_views(withdrawals@))),
        decreases request_count - index,
    {
        let request = read_request(storage, index, requests_entry_slot(index));
        let ghost earlier = Ok::<Seq<RequestView>, QueueError<E>>(request_views(withdrawals@));
        match request {
            Ok(request) => {
                let ghost before = withdrawals@;
                withdrawals.push(request);
                proof {
                    assert(request_views(withdrawals@) =~= request_views(before).push(request@));
                    assert(may_read_entry(
                        *storage,
                        index,
                        entry_slot(index),
                        Ok::<RequestView, QueueError<E>>(request@),
                    ));
                    let requests = Ok::<Seq<RequestView>, QueueError<E>>(
                        request_views(withdrawals@),
                    );
                    assert(((index + 1) as nat - 1) as nat == index as nat);
                    assert(((index + 1) as nat - 1) as u64 == index);
                    assert(may_read_next(*storage, index, earlier, requests));
                    assert(may_read_entries(*storage, (index + 1) as nat, requests));
                }
            },
            Err(error) => {
                proof {
                    assert(may_read_entry(
                        *storage,
                        index,
                        entry_slot(index),
                        Err::<RequestView, QueueError<E>>(error),
                    ));
                    let failed = Err::<Seq<RequestView>, QueueError<E>>(error);
                    assert(((index + 1) as nat - 1) as nat == index as nat);
                    assert(((index + 1) as nat - 1) as u64 == index);
                    assert(may_read_next(*storage, index, earlier, failed));
                    assert(may_read_entries(*storage, (index + 1) as nat, failed));
                    lemma_read_entries_fails(
                        *storage,
                        (index + 1) as nat,
                        request_count as nat,
                        error,
                    );
                }
                return Err(error);
            },
        }
        index = index + 1;
    }
    Ok(withdrawals)
}

} // verus!
