//! How Solidity lays the request queue out in storage, and that reading gives it back.

use vstd::arithmetic::power::pow;
use vstd::prelude::*;

use super::queue::{
    bytes_read, decode_head, entry_of, entry_preimage, entry_slot, gives, head_is_valid,
    may_read_after_head, may_read_bytes, may_read_chunks, may_read_entries, may_read_entry,
    may_read_next, may_read_next_word, may_read_queue, may_read_words, request_views,
    requests_read, word_in, PendingWithdrawal, QueueError, RequestView, REQUEST_COUNT_SLOT,
    WITHDRAWAL_REQUEST_QUEUE_ADDRESS,
};
use crate::hash::keccak;
use crate::words::{
    be_bytes, be_nat, byte_capacity, lemma_be_bytes_len, lemma_be_bytes_of_be_nat,
    lemma_be_nat_of_be_bytes, lemma_slot_plus_adds, saturate_u64, slot_plus,
};

verus! {

/// A word that begins with `data` and is filled up with zeros.
pub open spec fn padded(data: Seq<u8>) -> Seq<u8> {
    Seq::new(
        32,
        |i: int|
            if i < data.len() {
                data[i]
            } else {
                0
            },
    )
}

/// The word that holds a `bytes` value of at most 31 bytes: the bytes, then twice their number in
/// the last place.
pub open spec fn short_head(data: Seq<u8>) -> Seq<u8> {
    padded(data).update(31, (2 * data.len()) as u8)
}

/// The head word of a `bytes` value of more than 31 bytes: twice their number, plus one.
pub open spec fn long_head(length: nat) -> Seq<u8> {
    be_bytes(2 * length + 1, 32)
}

/// Whether `storage` answers `word`, and nothing else, when it is asked for `slot`.
pub open spec fn holds<S, E>(storage: S, slot: Seq<u8>, word: Seq<u8>) -> bool where
    S: Fn([u8; 20], [u8; 32]) -> Result<Option<[u8; 32]>, E>,
 {
    forall|given: Result<Seq<u8>, E>| #[trigger]
        gives(storage, slot, given) ==> given == Ok::<Seq<u8>, E>(word)
}

/// Whether `storage` holds `data` in consecutive slots from `slot` on.
pub open spec fn stores_words<S, E>(storage: S, slot: Seq<u8>, data: Seq<u8>) -> bool where
    S: Fn([u8; 20], [u8; 32]) -> Result<Option<[u8; 32]>, E>,
 {
    forall|k: nat|
        32 * k < data.len() ==> holds(
            storage,
            #[trigger] slot_plus(slot, k),
            padded(data.skip(32 * k as int)),
        )
}

/// Whether `storage` holds the `bytes` value `data` at `slot`.
pub open spec fn stores_bytes<S, E>(storage: S, slot: Seq<u8>, data: Seq<u8>) -> bool where
    S: Fn([u8; 20], [u8; 32]) -> Result<Option<[u8; 32]>, E>,
 {
    if data.len() <= 31 {
        holds(storage, slot, short_head(data))
    } else {
        &&& holds(storage, slot, long_head(data.len()))
        &&& stores_words(storage, keccak(slot), data)
    }
}

/// Whether `storage` holds `request` from `base` on.
pub open spec fn stores_request<S, E>(storage: S, base: Seq<u8>, request: RequestView) -> bool where
    S: Fn([u8; 20], [u8; 32]) -> Result<Option<[u8; 32]>, E>,
 {
    &&& holds(storage, base, be_bytes(0, 12) + request.requester)
    &&& holds(storage, slot_plus(base, 1), be_bytes(request.value_sats as nat, 32))
    &&& holds(storage, slot_plus(base, 2), be_bytes(request.main_fee_sats as nat, 32))
    &&& stores_bytes(storage, slot_plus(base, 3), request.btc_destination)
}

/// Whether `storage` holds a queue of `requests`.
pub open spec fn stores_queue<S, E>(storage: S, requests: Seq<RequestView>) -> bool where
    S: Fn([u8; 20], [u8; 32]) -> Result<Option<[u8; 32]>, E>,
 {
    &&& holds(storage, REQUEST_COUNT_SLOT@, be_bytes(requests.len(), 32))
    &&& forall|i: int|
        0 <= i < requests.len() ==> stores_request(
            storage,
            entry_slot(i as u64),
            #[trigger] requests[i],
        )
}

/// Whether `requests` can be those of a queue: numbered from zero, with addresses of 20 bytes and
/// destinations that memory can hold.
pub open spec fn queue_is_valid(requests: Seq<RequestView>) -> bool {
    &&& requests.len() <= u64::MAX
    &&& forall|i: int|
        0 <= i < requests.len() ==> {
            &&& (#[trigger] requests[i]).index == i
            &&& requests[i].requester.len() == 20
            &&& requests[i].btc_destination.len() <= usize::MAX
        }
}

proof fn lemma_wide_capacity()
    ensures
        byte_capacity(32) > 0x4_0000_0000_0000_0000,
{
    reveal_with_fuel(byte_capacity, 33);
}

proof fn lemma_stored_number(n: nat)
    requires
        n < 0x4_0000_0000_0000_0000,
    ensures
        be_nat(be_bytes(n, 32)) == n,
{
    lemma_wide_capacity();
    lemma_be_nat_of_be_bytes(n, 32);
    vstd::arithmetic::div_mod::lemma_small_mod(n, byte_capacity(32));
}

/// A byte string of at most 31 bytes is read back from its head word alone.
pub proof fn lemma_short_head_roundtrip(data: Seq<u8>)
    requires
        data.len() <= 31,
    ensures
        head_is_valid(short_head(data)),
        decode_head(short_head(data)) == Ok::<Seq<u8>, usize>(data),
{
    let word = short_head(data);
    assert(word[31] == 2 * data.len());
    assert(word.take(word[31] as int / 2) =~= data);
}

/// The length of a longer byte string is read back from its head word.
pub proof fn lemma_long_head_roundtrip(length: usize)
    ensures
        head_is_valid(long_head(length as nat)),
        decode_head(long_head(length as nat)) == Err::<Seq<u8>, usize>(length),
{
    let n = 2 * (length as nat) + 1;
    lemma_be_bytes_len(n, 32);
    lemma_be_bytes_len(n / 256, 31);
    assert(long_head(length as nat)[31] == (n % 256) as u8);
    lemma_stored_number(n);
}

/// The first `count` words of `data`, filled up with zeros.
spec fn padded_words(data: Seq<u8>, count: nat) -> Seq<u8> {
    Seq::new(
        32 * count,
        |i: int|
            if i < data.len() {
                data[i]
            } else {
                0
            },
    )
}

proof fn lemma_read_words_stored<S, E>(
    storage: S,
    slot: Seq<u8>,
    data: Seq<u8>,
    count: nat,
    words: Result<Seq<u8>, E>,
) where S: Fn([u8; 20], [u8; 32]) -> Result<Option<[u8; 32]>, E>
    requires
        stores_words(storage, slot, data),
        32 * count < data.len() + 32,
        may_read_words(storage, slot, count, words),
    ensures
        words == Ok::<Seq<u8>, E>(padded_words(data, count)),
    decreases count,
{
    if count == 0 {
        assert(padded_words(data, 0) =~= Seq::empty());
    } else {
        let k = (count - 1) as nat;
        let earlier = choose|earlier: Result<Seq<u8>, E>|
            may_read_words(storage, slot, k, earlier) && #[trigger] may_read_next_word(
                storage,
                slot_plus(slot, k),
                earlier,
                words,
            );
        lemma_read_words_stored(storage, slot, data, k, earlier);
        let word = padded(data.skip(32 * k as int));
        assert(holds(storage, slot_plus(slot, k), word));
        assert(padded_words(data, k) + word =~= padded_words(data, count));
    }
}

/// A `bytes` value is read back as it was stored.
pub proof fn lemma_read_bytes_stored<S, E>(
    storage: S,
    slot: Seq<u8>,
    data: Seq<u8>,
    read: Result<Seq<u8>, QueueError<E>>,
) where S: Fn([u8; 20], [u8; 32]) -> Result<Option<[u8; 32]>, E>
    requires
        stores_bytes(storage, slot, data),
        data.len() <= usize::MAX,
        may_read_bytes(storage, slot, read),
    ensures
        read == Ok::<Seq<u8>, QueueError<E>>(data),
{
    let head = choose|head: Result<Seq<u8>, E>| #[trigger]
        gives(storage, slot, head) && may_read_after_head(storage, slot, head, read);
    if data.len() <= 31 {
        assert(head == Ok::<Seq<u8>, E>(short_head(data)));
        lemma_short_head_roundtrip(data);
    } else {
        assert(head == Ok::<Seq<u8>, E>(long_head(data.len())));
        lemma_long_head_roundtrip(data.len() as usize);
        let length = decode_head(head->Ok_0)->Err_0 as nat;
        let chunks = choose|chunks: Result<Seq<u8>, E>| #[trigger]
            may_read_chunks(storage, keccak(slot), length, chunks) && read == match chunks {
                Ok(chunks) => Ok::<Seq<u8>, QueueError<E>>(chunks),
                Err(error) => Err::<Seq<u8>, _>(QueueError::Storage(error)),
            };
        let count = (length + 31) / 32;
        let words = choose|words: Result<Seq<u8>, E>| #[trigger]
            may_read_words(storage, keccak(slot), count, words) && chunks == match words {
                Ok(words) => Ok::<Seq<u8>, E>(words.take(length as int)),
                Err(error) => Err::<Seq<u8>, E>(error),
            };
        lemma_read_words_stored(storage, keccak(slot), data, count, words);
        assert(padded_words(data, count).take(length as int) =~= data);
    }
}

proof fn lemma_read_entry_stored<S, E>(
    storage: S,
    base: Seq<u8>,
    request: RequestView,
    read: Result<RequestView, QueueError<E>>,
) where S: Fn([u8; 20], [u8; 32]) -> Result<Option<[u8; 32]>, E>
    requires
        stores_request(storage, base, request),
        request.requester.len() == 20,
        request.btc_destination.len() <= usize::MAX,
        may_read_entry(storage, request.index, base, read),
    ensures
        read == Ok::<RequestView, QueueError<E>>(request),
{
    let first = be_bytes(0, 12) + request.requester;
    let value = be_bytes(request.value_sats as nat, 32);
    let fee = be_bytes(request.main_fee_sats as nat, 32);
    assert forall|destination: Result<Seq<u8>, QueueError<E>>| #[trigger]
        may_read_bytes(storage, slot_plus(base, 3), destination) implies destination == Ok::<
        Seq<u8>,
        QueueError<E>,
    >(request.btc_destination) by {
        lemma_read_bytes_stored(
            storage,
            slot_plus(base, 3),
            request.btc_destination,
            destination,
        );
    }
    lemma_stored_number(request.value_sats as nat);
    lemma_stored_number(request.main_fee_sats as nat);
    lemma_be_bytes_len(0, 12);
    assert(first.skip(12) =~= request.requester);
    assert(read == entry_of(
        request.index,
        first,
        value,
        fee,
        Ok::<Seq<u8>, QueueError<E>>(request.btc_destination),
    ));
}

proof fn lemma_read_entries_stored<S, E>(
    storage: S,
    requests: Seq<RequestView>,
    count: nat,
    read: Result<Seq<RequestView>, QueueError<E>>,
) where S: Fn([u8; 20], [u8; 32]) -> Result<Option<[u8; 32]>, E>
    requires
        queue_is_valid(requests),
        stores_queue(storage, requests),
        count <= requests.len(),
        may_read_entries(storage, count, read),
    ensures
        read == Ok::<Seq<RequestView>, QueueError<E>>(requests.take(count as int)),
    decreases count,
{
    if count == 0 {
        assert(requests.take(0) =~= Seq::empty());
    } else {
        let last = (count - 1) as u64;
        let earlier = choose|earlier: Result<Seq<RequestView>, QueueError<E>>|
            may_read_entries(storage, (count - 1) as nat, earlier) && #[trigger] may_read_next(
                storage,
                last,
                earlier,
                read,
            );
        lemma_read_entries_stored(storage, requests, (count - 1) as nat, earlier);
        let request = requests[count - 1];
        assert(stores_request(storage, entry_slot(last), request));
        assert forall|entry: Result<RequestView, QueueError<E>>| #[trigger]
            may_read_entry(storage, last, entry_slot(last), entry) implies entry == Ok::<
            RequestView,
            QueueError<E>,
        >(request) by {
            lemma_read_entry_stored(storage, entry_slot(last), request, entry);
        }
        assert(requests.take(count as int) =~= requests.take(count - 1).push(request));
    }
}

/// A queue is read back as it was stored: every request, in order.
pub proof fn lemma_read_queue_stored<S, E>(
    storage: S,
    requests: Seq<RequestView>,
    read: Result<Seq<RequestView>, QueueError<E>>,
) where S: Fn([u8; 20], [u8; 32]) -> Result<Option<[u8; 32]>, E>
    requires
        queue_is_valid(requests),
        stores_queue(storage, requests),
        may_read_queue(storage, read),
    ensures
        read == Ok::<Seq<RequestView>, QueueError<E>>(requests),
{
    lemma_stored_number(requests.len());
    lemma_read_entries_stored(storage, requests, requests.len(), read);
    assert(requests.take(requests.len() as int) =~= requests);
}

/// Whether `storage` has one answer for each slot, as the state after a given block has.
pub open spec fn is_steady<S, E>(storage: S) -> bool where
    S: Fn([u8; 20], [u8; 32]) -> Result<Option<[u8; 32]>, E>,
 {
    forall|slot: Seq<u8>, a: Result<Seq<u8>, E>, b: Result<Seq<u8>, E>| #[trigger]
        gives(storage, slot, a) && #[trigger] gives(storage, slot, b) ==> a == b
}

proof fn lemma_steady_words<S, E>(
    storage: S,
    slot: Seq<u8>,
    count: nat,
    a: Result<Seq<u8>, E>,
    b: Result<Seq<u8>, E>,
) where S: Fn([u8; 20], [u8; 32]) -> Result<Option<[u8; 32]>, E>
    requires
        is_steady(storage),
        may_read_words(storage, slot, count, a),
        may_read_words(storage, slot, count, b),
    ensures
        a == b,
    decreases count,
{
    if count > 0 {
        let k = (count - 1) as nat;
        let at = slot_plus(slot, k);
        let before_a = choose|earlier: Result<Seq<u8>, E>|
            may_read_words(storage, slot, k, earlier) && #[trigger] may_read_next_word(
                storage,
                at,
                earlier,
                a,
            );
        let before_b = choose|earlier: Result<Seq<u8>, E>|
            may_read_words(storage, slot, k, earlier) && #[trigger] may_read_next_word(
                storage,
                at,
                earlier,
                b,
            );
        lemma_steady_words(storage, slot, k, before_a, before_b);
    }
}

proof fn lemma_steady_bytes<S, E>(
    storage: S,
    slot: Seq<u8>,
    a: Result<Seq<u8>, QueueError<E>>,
    b: Result<Seq<u8>, QueueError<E>>,
) where S: Fn([u8; 20], [u8; 32]) -> Result<Option<[u8; 32]>, E>
    requires
        is_steady(storage),
        may_read_bytes(storage, slot, a),
        may_read_bytes(storage, slot, b),
    ensures
        a == b,
{
    assert forall|length: nat, x: Result<Seq<u8>, E>, y: Result<Seq<u8>, E>| #[trigger]
        may_read_chunks(storage, keccak(slot), length, x) && #[trigger] may_read_chunks(
            storage,
            keccak(slot),
            length,
            y,
        ) implies x == y by {
        let count = (length + 31) / 32;
        let words_x = choose|words: Result<Seq<u8>, E>| #[trigger]
            may_read_words(storage, keccak(slot), count, words) && x == match words {
                Ok(words) => Ok::<Seq<u8>, E>(words.take(length as int)),
                Err(error) => Err::<Seq<u8>, E>(error),
            };
        let words_y = choose|words: Result<Seq<u8>, E>| #[trigger]
            may_read_words(storage, keccak(slot), count, words) && y == match words {
                Ok(words) => Ok::<Seq<u8>, E>(words.take(length as int)),
                Err(error) => Err::<Seq<u8>, E>(error),
            };
        lemma_steady_words(storage, keccak(slot), count, words_x, words_y);
    }
    let head_a = choose|head: Result<Seq<u8>, E>| #[trigger]
        gives(storage, slot, head) && may_read_after_head(storage, slot, head, a);
    let head_b = choose|head: Result<Seq<u8>, E>| #[trigger]
        gives(storage, slot, head) && may_read_after_head(storage, slot, head, b);
    assert(head_a == head_b);
}

proof fn lemma_steady_entry<S, E>(
    storage: S,
    index: u64,
    base: Seq<u8>,
    a: Result<RequestView, QueueError<E>>,
    b: Result<RequestView, QueueError<E>>,
) where S: Fn([u8; 20], [u8; 32]) -> Result<Option<[u8; 32]>, E>
    requires
        is_steady(storage),
        may_read_entry(storage, index, base, a),
        may_read_entry(storage, index, base, b),
    ensures
        a == b,
{
    assert forall|
        x: Result<Seq<u8>, QueueError<E>>,
        y: Result<Seq<u8>, QueueError<E>>,
    | #[trigger]
        may_read_bytes(storage, slot_plus(base, 3), x) && #[trigger] may_read_bytes(
            storage,
            slot_plus(base, 3),
            y,
        ) implies x == y by {
        lemma_steady_bytes(storage, slot_plus(base, 3), x, y);
    }
}

proof fn lemma_steady_entries<S, E>(
    storage: S,
    count: nat,
    a: Result<Seq<RequestView>, QueueError<E>>,
    b: Result<Seq<RequestView>, QueueError<E>>,
) where S: Fn([u8; 20], [u8; 32]) -> Result<Option<[u8; 32]>, E>
    requires
        is_steady(storage),
        may_read_entries(storage, count, a),
        may_read_entries(storage, count, b),
    ensures
        a == b,
    decreases count,
{
    if count > 0 {
        let last = (count - 1) as u64;
        let before_a = choose|earlier: Result<Seq<RequestView>, QueueError<E>>|
            may_read_entries(storage, (count - 1) as nat, earlier) && #[trigger] may_read_next(
                storage,
                last,
                earlier,
                a,
            );
        let before_b = choose|earlier: Result<Seq<RequestView>, QueueError<E>>|
            may_read_entries(storage, (count - 1) as nat, earlier) && #[trigger] may_read_next(
                storage,
                last,
                earlier,
                b,
            );
        lemma_steady_entries(storage, (count - 1) as nat, before_a, before_b);
        assert forall|
            x: Result<RequestView, QueueError<E>>,
            y: Result<RequestView, QueueError<E>>,
        | #[trigger]
            may_read_entry(storage, last, entry_slot(last), x) && #[trigger] may_read_entry(
                storage,
                last,
                entry_slot(last),
                y,
            ) implies x == y by {
            lemma_steady_entry(storage, last, entry_slot(last), x, y);
        }
    }
}

/// The queue in a state that does not change is read alike every time, failures included.
pub proof fn lemma_reading_is_repeatable<S, E>(
    storage: S,
    a: Result<Seq<RequestView>, QueueError<E>>,
    b: Result<Seq<RequestView>, QueueError<E>>,
) where S: Fn([u8; 20], [u8; 32]) -> Result<Option<[u8; 32]>, E>
    requires
        is_steady(storage),
        may_read_queue(storage, a),
        may_read_queue(storage, b),
    ensures
        a == b,
{
    let count_a = choose|count: Result<Seq<u8>, E>| #[trigger]
        gives(storage, REQUEST_COUNT_SLOT@, count) && match count {
            Err(error) => a == Err::<Seq<RequestView>, _>(QueueError::Storage(error)),
            Ok(count) => may_read_entries(storage, saturate_u64(be_nat(count)) as nat, a),
        };
    if let Ok(count) = count_a {
        lemma_steady_entries(storage, saturate_u64(be_nat(count)) as nat, a, b);
    }
}

/// The slots of different requests are hashes of different bytes.
pub proof fn lemma_entry_preimage_injective(a: u64, b: u64)
    requires
        entry_preimage(a) == entry_preimage(b),
    ensures
        a == b,
{
    lemma_be_bytes_len(a as nat, 32);
    lemma_be_bytes_len(b as nat, 32);
    assert(entry_preimage(a).take(32) =~= be_bytes(a as nat, 32));
    assert(entry_preimage(b).take(32) =~= be_bytes(b as nat, 32));
    lemma_stored_number(a as nat);
    lemma_stored_number(b as nat);
}

/// Whether `storage` answers `word`, and nothing else, for the slot whose number is `place`; slot
/// numbers wrap around after 32 bytes.
pub open spec fn answers_at<S, E>(storage: S, place: nat, word: [u8; 32]) -> bool where
    S: Fn([u8; 20], [u8; 32]) -> Result<Option<[u8; 32]>, E>,
 {
    forall|at: [u8; 32], answer: Result<Option<[u8; 32]>, E>|
        be_nat(at@) == place as int % pow(256, 32) && #[trigger] call_ensures(
            storage,
            (WITHDRAWAL_REQUEST_QUEUE_ADDRESS, at),
            answer,
        ) ==> answer == Ok::<Option<[u8; 32]>, E>(Some(word))
}

proof fn lemma_answer_at<S, E>(
    storage: S,
    slot: Seq<u8>,
    place: nat,
    word: [u8; 32],
    given: Result<Seq<u8>, E>,
) where S: Fn([u8; 20], [u8; 32]) -> Result<Option<[u8; 32]>, E>
    requires
        answers_at(storage, place, word),
        be_nat(slot) == place as int % pow(256, 32),
        gives(storage, slot, given),
    ensures
        given == Ok::<Seq<u8>, E>(word@),
{
    let (at, answer) = choose|at: [u8; 32], answer: Result<Option<[u8; 32]>, E>|
        at@ == slot && #[trigger] call_ensures(
            storage,
            (WITHDRAWAL_REQUEST_QUEUE_ADDRESS, at),
            answer,
        ) && given == word_in(answer);
    assert(answer == Ok::<Option<[u8; 32]>, E>(Some(word)));
}

proof fn lemma_slot_number(slot: Seq<u8>)
    requires
        slot.len() == 32,
    ensures
        be_nat(slot) == be_nat(slot) as int % pow(256, 32),
{
    lemma_slot_plus_adds(slot, 0);
    lemma_be_bytes_of_be_nat(slot);
}

/// A slot that was never written counts as zero, and what was read otherwise is taken as it is.
pub proof fn lemma_unwritten_slots_are_zero<E>(word: [u8; 32], error: E)
    ensures
        word_in(Ok::<Option<[u8; 32]>, E>(None)) matches Ok(zero) && zero.len() == 32
            && forall|i: int| 0 <= i < 32 ==> #[trigger] zero[i] == 0,
        word_in(Ok::<Option<[u8; 32]>, E>(Some(word))) == Ok::<Seq<u8>, E>(word@),
        word_in(Err::<Option<[u8; 32]>, E>(error)) == Err::<Seq<u8>, E>(error),
{
    lemma_be_bytes_len(0, 32);
    lemma_zero_bytes(32);
}

proof fn lemma_zero_bytes(len: nat)
    ensures
        be_bytes(0, len).len() == len,
        forall|i: int| 0 <= i < len ==> #[trigger] be_bytes(0, len)[i] == 0,
    decreases len,
{
    if len > 0 {
        lemma_zero_bytes((len - 1) as nat);
    }
}

/// What is read is handed on as it is: bytes, and requests field by field in their places.
pub proof fn lemma_requests_are_handed_on<E>(
    data: Vec<u8>,
    requests: Vec<PendingWithdrawal>,
    error: QueueError<E>,
    i: int,
)
    ensures
        bytes_read(Ok::<Vec<u8>, QueueError<E>>(data)) == Ok::<Seq<u8>, QueueError<E>>(data@),
        bytes_read(Err::<Vec<u8>, QueueError<E>>(error)) == Err::<Seq<u8>, _>(error),
        requests_read(Err::<Vec<PendingWithdrawal>, QueueError<E>>(error)) == Err::<
            Seq<RequestView>,
            _,
        >(error),
        requests_read(Ok::<Vec<PendingWithdrawal>, QueueError<E>>(requests)) == Ok::<
            Seq<RequestView>,
            QueueError<E>,
        >(request_views(requests@)),
        request_views(requests@).len() == requests@.len(),
        0 <= i < requests@.len() ==> {
            let (shown, request) = (request_views(requests@)[i], requests@[i]);
            &&& shown.index == request.index
            &&& shown.requester == request.requester@
            &&& shown.value_sats == request.value_sats
            &&& shown.main_fee_sats == request.main_fee_sats
            &&& shown.btc_destination == request.btc_destination@
        },
{
}

/// What a head word says, whatever else it holds. If its last byte is even and at most 64, it says
/// half as many bytes, which stand at its front; with a larger even one it says nothing that can
/// be; and with an odd one, half of its number is a length.
pub proof fn lemma_head_is_decoded(word: Seq<u8>)
    requires
        word.len() == 32,
    ensures
        word[31] % 2 == 0 && word[31] <= 64 ==> head_is_valid(word) && decode_head(word) == Ok::<
            Seq<u8>,
            usize,
        >(word.take(word[31] as int / 2)),
        word[31] % 2 == 0 && word[31] > 64 ==> !head_is_valid(word),
        word[31] % 2 == 1 ==> head_is_valid(word) && (decode_head(word) matches Err(length) && (
        be_nat(word) / 2 <= usize::MAX ==> length == be_nat(word) / 2) && (be_nat(word) / 2
            > usize::MAX ==> length == usize::MAX)),
{
}

/// The slot of a request is the hash of 64 bytes: its index, then 1, each as a number of 32 bytes.
pub proof fn lemma_entry_slot_is_hashed(index: u64)
    ensures
        entry_slot(index) == keccak(entry_preimage(index)),
        entry_preimage(index).len() == 64,
        be_nat(entry_preimage(index).take(32)) == index,
        be_nat(entry_preimage(index).skip(32)) == 1,
{
    lemma_be_bytes_len(index as nat, 32);
    lemma_be_bytes_len(1, 32);
    lemma_stored_number(index as nat);
    lemma_stored_number(1);
    assert(entry_preimage(index).take(32) =~= be_bytes(index as nat, 32));
    assert(entry_preimage(index).skip(32) =~= be_bytes(1, 32));
}

/// A short byte string is read from its own slot alone.
pub proof fn lemma_short_bytes_are_read<S, E>(
    storage: S,
    slot: Seq<u8>,
    head: [u8; 32],
    read: Result<Seq<u8>, QueueError<E>>,
) where S: Fn([u8; 20], [u8; 32]) -> Result<Option<[u8; 32]>, E>
    requires
        slot.len() == 32,
        answers_at(storage, be_nat(slot), head),
        head@[31] % 2 == 0,
        may_read_bytes(storage, slot, read),
    ensures
        head@[31] <= 64 ==> read == Ok::<Seq<u8>, QueueError<E>>(
            head@.take(head@[31] as int / 2),
        ),
        head@[31] > 64 ==> read == Err::<Seq<u8>, _>(QueueError::<E>::InvalidBytesHead),
{
    lemma_slot_number(slot);
    let given = choose|given: Result<Seq<u8>, E>| #[trigger]
        gives(storage, slot, given) && may_read_after_head(storage, slot, given, read);
    lemma_answer_at(storage, slot, be_nat(slot), head, given);
}

/// Whether word `k` of `data`, as far as it goes, stands at the beginning of `word`.
pub open spec fn carries(word: [u8; 32], data: Seq<u8>, k: nat) -> bool {
    forall|i: int|
        32 * k <= i < 32 * k + 32 && i < data.len() ==> word@[i - 32 * k] == #[trigger] data[i]
}

proof fn lemma_words_are_read<S, E>(
    storage: S,
    slot: Seq<u8>,
    words: spec_fn(nat) -> [u8; 32],
    data: Seq<u8>,
    count: nat,
    read: Result<Seq<u8>, E>,
) where S: Fn([u8; 20], [u8; 32]) -> Result<Option<[u8; 32]>, E>
    requires
        32 * count < data.len() + 32,
        forall|k: nat|
            32 * k < data.len() ==> answers_at(storage, be_nat(slot) + k, #[trigger] words(k))
                && carries(words(k), data, k),
        may_read_words(storage, slot, count, read),
    ensures
        read matches Ok(read) && read.len() == 32 * count && forall|i: int|
            0 <= i < 32 * count && i < data.len() ==> #[trigger] read[i] == data[i],
    decreases count,
{
    if count > 0 {
        let k = (count - 1) as nat;
        let at = slot_plus(slot, k);
        let earlier = choose|earlier: Result<Seq<u8>, E>|
            may_read_words(storage, slot, k, earlier) && #[trigger] may_read_next_word(
                storage,
                at,
                earlier,
                read,
            );
        lemma_words_are_read(storage, slot, words, data, k, earlier);
        let word = choose|word: Result<Seq<u8>, E>| #[trigger]
            gives(storage, at, word) && match word {
                Err(error) => read == Err::<Seq<u8>, E>(error),
                Ok(word) => read == Ok::<Seq<u8>, E>(earlier->Ok_0 + word),
            };
        assert(answers_at(storage, be_nat(slot) + k, words(k)));
        lemma_slot_plus_adds(slot, k);
        lemma_answer_at(storage, at, be_nat(slot) + k, words(k), word);
        let whole = read->Ok_0;
        assert forall|i: int| 0 <= i < 32 * count && i < data.len() implies #[trigger] whole[i]
            == data[i] by {
            if i < 32 * k {
                assert(earlier->Ok_0[i] == data[i]);
            } else {
                assert(carries(words(k), data, k));
                assert(whole[i] == words(k)@[i - 32 * k]);
            }
        }
    }
}

/// A longer byte string is read from the slots that begin at the hash of its own slot, 32 bytes
/// from each, in order.
pub proof fn lemma_long_bytes_are_read<S, E>(
    storage: S,
    slot: Seq<u8>,
    head: [u8; 32],
    words: spec_fn(nat) -> [u8; 32],
    data: Seq<u8>,
    read: Result<Seq<u8>, QueueError<E>>,
) where S: Fn([u8; 20], [u8; 32]) -> Result<Option<[u8; 32]>, E>
    requires
        slot.len() == 32,
        data.len() <= usize::MAX,
        answers_at(storage, be_nat(slot), head),
        be_nat(head@) == 2 * data.len() + 1,
        forall|k: nat|
            32 * k < data.len() ==> answers_at(
                storage,
                be_nat(keccak(slot)) + k,
                #[trigger] words(k),
            ) && carries(words(k), data, k),
        may_read_bytes(storage, slot, read),
    ensures
        read == Ok::<Seq<u8>, QueueError<E>>(data),
{
    lemma_slot_number(slot);
    let given = choose|given: Result<Seq<u8>, E>| #[trigger]
        gives(storage, slot, given) && may_read_after_head(storage, slot, given, read);
    lemma_answer_at(storage, slot, be_nat(slot), head, given);
    assert(be_nat(head@) == be_nat(head@.drop_last()) * 256 + head@.last() as nat);
    assert(head@[31] % 2 == 1);
    lemma_head_is_decoded(head@);
    let length = decode_head(given->Ok_0)->Err_0 as nat;
    assert(length == data.len());
    let chunks = choose|chunks: Result<Seq<u8>, E>| #[trigger]
        may_read_chunks(storage, keccak(slot), length, chunks) && read == match chunks {
            Ok(chunks) => Ok::<Seq<u8>, QueueError<E>>(chunks),
            Err(error) => Err::<Seq<u8>, _>(QueueError::Storage(error)),
        };
    let count = (length + 31) / 32;
    let found = choose|found: Result<Seq<u8>, E>| #[trigger]
        may_read_words(storage, keccak(slot), count, found) && chunks == match found {
            Ok(found) => Ok::<Seq<u8>, E>(found.take(length as int)),
            Err(error) => Err::<Seq<u8>, E>(error),
        };
    lemma_words_are_read(storage, keccak(slot), words, data, count, found);
    assert(found->Ok_0.take(length as int) =~= data);
}

/// A request is read from four slots in a row: the requester in the last 20 bytes of the first, the
/// value and the fee as the numbers of the next two (up to the largest `u64`), and the destination
/// from the fourth on.
pub proof fn lemma_request_is_read<S, E>(
    storage: S,
    index: u64,
    base: Seq<u8>,
    requester: [u8; 32],
    value: [u8; 32],
    fee: [u8; 32],
    destination: Seq<u8>,
    read: Result<RequestView, QueueError<E>>,
) where S: Fn([u8; 20], [u8; 32]) -> Result<Option<[u8; 32]>, E>
    requires
        base.len() == 32,
        answers_at(storage, be_nat(base), requester),
        answers_at(storage, be_nat(base) + 1, value),
        answers_at(storage, be_nat(base) + 2, fee),
        forall|slot: Seq<u8>, bytes: Result<Seq<u8>, QueueError<E>>|
            slot.len() == 32 && be_nat(slot) == (be_nat(base) + 3) as int % pow(256, 32)
                && #[trigger] may_read_bytes(storage, slot, bytes) ==> bytes == Ok::<
                Seq<u8>,
                QueueError<E>,
            >(destination),
        may_read_entry(storage, index, base, read),
    ensures
        read matches Ok(request) && {
            &&& request.index == index
            &&& request.requester.len() == 20
            &&& forall|i: int| 0 <= i < 20 ==> #[trigger] request.requester[i] == requester@[12 + i]
            &&& be_nat(value@) <= u64::MAX ==> request.value_sats == be_nat(value@)
            &&& be_nat(value@) > u64::MAX ==> request.value_sats == u64::MAX
            &&& be_nat(fee@) <= u64::MAX ==> request.main_fee_sats == be_nat(fee@)
            &&& be_nat(fee@) > u64::MAX ==> request.main_fee_sats == u64::MAX
            &&& request.btc_destination == destination
        },
{
    lemma_slot_number(base);
    lemma_slot_plus_adds(base, 1);
    lemma_slot_plus_adds(base, 2);
    lemma_slot_plus_adds(base, 3);
    assert forall|given: Result<Seq<u8>, E>| #[trigger] gives(storage, base, given) implies given
        == Ok::<Seq<u8>, E>(requester@) by {
        lemma_answer_at(storage, base, be_nat(base), requester, given);
    }
    assert forall|given: Result<Seq<u8>, E>| #[trigger]
        gives(storage, slot_plus(base, 1), given) implies given == Ok::<Seq<u8>, E>(value@) by {
        lemma_answer_at(storage, slot_plus(base, 1), be_nat(base) + 1, value, given);
    }
    assert forall|given: Result<Seq<u8>, E>| #[trigger]
        gives(storage, slot_plus(base, 2), given) implies given == Ok::<Seq<u8>, E>(fee@) by {
        lemma_answer_at(storage, slot_plus(base, 2), be_nat(base) + 2, fee, given);
    }
}

proof fn lemma_entries_are_read<S, E>(
    storage: S,
    requests: Seq<RequestView>,
    count: nat,
    read: Result<Seq<RequestView>, QueueError<E>>,
) where S: Fn([u8; 20], [u8; 32]) -> Result<Option<[u8; 32]>, E>
    requires
        count <= requests.len() <= u64::MAX,
        forall|i: int, entry: Result<RequestView, QueueError<E>>|
            0 <= i < requests.len() && #[trigger] may_read_entry(
                storage,
                i as u64,
                entry_slot(i as u64),
                entry,
            ) ==> entry == Ok::<RequestView, QueueError<E>>(requests[i]),
        may_read_entries(storage, count, read),
    ensures
        read == Ok::<Seq<RequestView>, QueueError<E>>(requests.take(count as int)),
    decreases count,
{
    if count == 0 {
        assert(requests.take(0) =~= Seq::empty());
    } else {
        let last = (count - 1) as u64;
        let earlier = choose|earlier: Result<Seq<RequestView>, QueueError<E>>|
            may_read_entries(storage, (count - 1) as nat, earlier) && #[trigger] may_read_next(
                storage,
                last,
                earlier,
                read,
            );
        lemma_entries_are_read(storage, requests, (count - 1) as nat, earlier);
        let entry = choose|entry: Result<RequestView, QueueError<E>>| #[trigger]
            may_read_entry(storage, last, entry_slot(last), entry) && match entry {
                Err(error) => read == Err::<Seq<RequestView>, _>(error),
                Ok(entry) => read == Ok::<Seq<RequestView>, QueueError<E>>(
                    earlier->Ok_0.push(entry),
                ),
            };
        assert(may_read_entry(
            storage,
            (count - 1) as u64,
            entry_slot((count - 1) as u64),
            entry,
        ));
        assert(requests.take(count as int) =~= requests.take(count - 1).push(
            requests[count - 1],
        ));
    }
}

/// The queue is as long as the number in the very first slot says, and its requests are read each
/// from the slot of its own place, all of them and in order.
pub proof fn lemma_queue_is_read_in_order<S, E>(
    storage: S,
    count: [u8; 32],
    requests: Seq<RequestView>,
    read: Result<Seq<RequestView>, QueueError<E>>,
) where S: Fn([u8; 20], [u8; 32]) -> Result<Option<[u8; 32]>, E>
    requires
        answers_at(storage, 0, count),
        be_nat(count@) == requests.len(),
        requests.len() <= u64::MAX,
        forall|i: int, entry: Result<RequestView, QueueError<E>>|
            0 <= i < requests.len() && #[trigger] may_read_entry(
                storage,
                i as u64,
                entry_slot(i as u64),
                entry,
            ) ==> entry == Ok::<RequestView, QueueError<E>>(requests[i]),
        may_read_queue(storage, read),
    ensures
        read == Ok::<Seq<RequestView>, QueueError<E>>(requests),
{
    let given = choose|given: Result<Seq<u8>, E>| #[trigger]
        gives(storage, REQUEST_COUNT_SLOT@, given) && match given {
            Err(error) => read == Err::<Seq<RequestView>, _>(QueueError::Storage(error)),
            Ok(given) => may_read_entries(storage, saturate_u64(be_nat(given)) as nat, read),
        };
    lemma_zero_bytes(32);
    assert(REQUEST_COUNT_SLOT@ =~= be_bytes(0, 32));
    lemma_stored_number(0);
    lemma_slot_number(REQUEST_COUNT_SLOT@);
    lemma_answer_at(storage, REQUEST_COUNT_SLOT@, 0, count, given);
    lemma_entries_are_read(storage, requests, requests.len(), read);
    assert(requests.take(requests.len() as int) =~= requests);
}

/// Whether `storage` fails with `error`, and never answers, for the slot whose number is `place`.
pub open spec fn fails_at<S, E>(storage: S, place: nat, error: E) -> bool where
    S: Fn([u8; 20], [u8; 32]) -> Result<Option<[u8; 32]>, E>,
 {
    forall|at: [u8; 32], answer: Result<Option<[u8; 32]>, E>|
        be_nat(at@) == place as int % pow(256, 32) && #[trigger] call_ensures(
            storage,
            (WITHDRAWAL_REQUEST_QUEUE_ADDRESS, at),
            answer,
        ) ==> answer == Err::<Option<[u8; 32]>, E>(error)
}

proof fn lemma_failure_at<S, E>(
    storage: S,
    slot: Seq<u8>,
    place: nat,
    error: E,
    given: Result<Seq<u8>, E>,
) where S: Fn([u8; 20], [u8; 32]) -> Result<Option<[u8; 32]>, E>
    requires
        fails_at(storage, place, error),
        be_nat(slot) == place as int % pow(256, 32),
        gives(storage, slot, given),
    ensures
        given == Err::<Seq<u8>, E>(error),
{
    let (at, answer) = choose|at: [u8; 32], answer: Result<Option<[u8; 32]>, E>|
        at@ == slot && #[trigger] call_ensures(
            storage,
            (WITHDRAWAL_REQUEST_QUEUE_ADDRESS, at),
            answer,
        ) && given == word_in(answer);
    assert(answer == Err::<Option<[u8; 32]>, E>(error));
}

/// A byte string whose head, or any of whose words, cannot be read is not read at all.
pub proof fn lemma_unreadable_bytes<S, E>(
    storage: S,
    slot: Seq<u8>,
    head: [u8; 32],
    words: spec_fn(nat) -> [u8; 32],
    failed: nat,
    error: E,
    read: Result<Seq<u8>, QueueError<E>>,
) where S: Fn([u8; 20], [u8; 32]) -> Result<Option<[u8; 32]>, E>
    requires
        slot.len() == 32,
        may_read_bytes(storage, slot, read),
        fails_at(storage, be_nat(slot), error) || {
            &&& answers_at(storage, be_nat(slot), head)
            &&& head@[31] % 2 == 1
            &&& be_nat(head@) / 2 <= usize::MAX
            &&& 32 * failed < be_nat(head@) / 2
            &&& forall|k: nat|
                k < failed ==> answers_at(
                    storage,
                    be_nat(keccak(slot)) + k,
                    #[trigger] words(k),
                )
            &&& fails_at(storage, be_nat(keccak(slot)) + failed, error)
        },
    ensures
        read == Err::<Seq<u8>, _>(QueueError::Storage(error)),
{
    lemma_slot_number(slot);
    let given = choose|given: Result<Seq<u8>, E>| #[trigger]
        gives(storage, slot, given) && may_read_after_head(storage, slot, given, read);
    if fails_at(storage, be_nat(slot), error) {
        lemma_failure_at(storage, slot, be_nat(slot), error, given);
    } else {
        lemma_answer_at(storage, slot, be_nat(slot), head, given);
        lemma_head_is_decoded(head@);
        let length = decode_head(given->Ok_0)->Err_0 as nat;
        let chunks = choose|chunks: Result<Seq<u8>, E>| #[trigger]
            may_read_chunks(storage, keccak(slot), length, chunks) && read == match chunks {
                Ok(chunks) => Ok::<Seq<u8>, QueueError<E>>(chunks),
                Err(error) => Err::<Seq<u8>, _>(QueueError::Storage(error)),
            };
        let count = (length + 31) / 32;
        let found = choose|found: Result<Seq<u8>, E>| #[trigger]
            may_read_words(storage, keccak(slot), count, found) && chunks == match found {
                Ok(found) => Ok::<Seq<u8>, E>(found.take(length as int)),
                Err(error) => Err::<Seq<u8>, E>(error),
            };
        lemma_unreadable_words(storage, keccak(slot), words, failed, error, count, found);
    }
}

proof fn lemma_unreadable_words<S, E>(
    storage: S,
    slot: Seq<u8>,
    words: spec_fn(nat) -> [u8; 32],
    failed: nat,
    error: E,
    count: nat,
    read: Result<Seq<u8>, E>,
) where S: Fn([u8; 20], [u8; 32]) -> Result<Option<[u8; 32]>, E>
    requires
        forall|k: nat| k < failed ==> answers_at(storage, be_nat(slot) + k, #[trigger] words(k)),
        fails_at(storage, be_nat(slot) + failed, error),
        may_read_words(storage, slot, count, read),
    ensures
        count <= failed ==> read is Ok,
        count > failed ==> read == Err::<Seq<u8>, E>(error),
    decreases count,
{
    if count > 0 {
        let k = (count - 1) as nat;
        let at = slot_plus(slot, k);
        let earlier = choose|earlier: Result<Seq<u8>, E>|
            may_read_words(storage, slot, k, earlier) && #[trigger] may_read_next_word(
                storage,
                at,
                earlier,
                read,
            );
        lemma_unreadable_words(storage, slot, words, failed, error, k, earlier);
        if k <= failed {
            let word = choose|word: Result<Seq<u8>, E>| #[trigger]
                gives(storage, at, word) && match word {
                    Err(error) => read == Err::<Seq<u8>, E>(error),
                    Ok(word) => read == Ok::<Seq<u8>, E>(earlier->Ok_0 + word),
                };
            lemma_slot_plus_adds(slot, k);
            if k < failed {
                assert(answers_at(storage, be_nat(slot) + k, words(k)));
                lemma_answer_at(storage, at, be_nat(slot) + k, words(k), word);
            } else {
                lemma_failure_at(storage, at, be_nat(slot) + k, error, word);
            }
        }
    }
}

/// A request of which any part cannot be read is not read at all, and the first failure is the one
/// that is told.
pub proof fn lemma_unreadable_request<S, E>(
    storage: S,
    index: u64,
    base: Seq<u8>,
    requester: [u8; 32],
    value: [u8; 32],
    fee: [u8; 32],
    error: E,
    failure: QueueError<E>,
    read: Result<RequestView, QueueError<E>>,
) where S: Fn([u8; 20], [u8; 32]) -> Result<Option<[u8; 32]>, E>
    requires
        base.len() == 32,
        may_read_entry(storage, index, base, read),
    ensures
        fails_at(storage, be_nat(base), error) ==> read == Err::<RequestView, _>(
            QueueError::Storage(error),
        ),
        answers_at(storage, be_nat(base), requester) && fails_at(storage, be_nat(base) + 1, error)
            ==> read == Err::<RequestView, _>(QueueError::Storage(error)),
        answers_at(storage, be_nat(base), requester) && answers_at(storage, be_nat(base) + 1, value)
            && fails_at(storage, be_nat(base) + 2, error) ==> read == Err::<RequestView, _>(
            QueueError::Storage(error),
        ),
        answers_at(storage, be_nat(base), requester) && answers_at(storage, be_nat(base) + 1, value)
            && answers_at(storage, be_nat(base) + 2, fee) && (forall|
            slot: Seq<u8>,
            bytes: Result<Seq<u8>, QueueError<E>>,
        |
            slot.len() == 32 && be_nat(slot) == (be_nat(base) + 3) as int % pow(256, 32)
                && #[trigger] may_read_bytes(storage, slot, bytes) ==> bytes == Err::<Seq<u8>, _>(
                failure,
            )) ==> read == Err::<RequestView, _>(failure),
{
    lemma_slot_number(base);
    lemma_slot_plus_adds(base, 1);
    lemma_slot_plus_adds(base, 2);
    lemma_slot_plus_adds(base, 3);
    let (one, two) = (slot_plus(base, 1), slot_plus(base, 2));
    if fails_at(storage, be_nat(base), error) {
        assert forall|given: Result<Seq<u8>, E>| #[trigger]
            gives(storage, base, given) implies given == Err::<Seq<u8>, E>(error) by {
            lemma_failure_at(storage, base, be_nat(base), error, given);
        }
    }
    if answers_at(storage, be_nat(base), requester) {
        assert forall|given: Result<Seq<u8>, E>| #[trigger]
            gives(storage, base, given) implies given == Ok::<Seq<u8>, E>(requester@) by {
            lemma_answer_at(storage, base, be_nat(base), requester, given);
        }
    }
    if fails_at(storage, be_nat(base) + 1, error) {
        assert forall|given: Result<Seq<u8>, E>| #[trigger] gives(storage, one, given) implies given
            == Err::<Seq<u8>, E>(error) by {
            lemma_failure_at(storage, one, be_nat(base) + 1, error, given);
        }
    }
    if answers_at(storage, be_nat(base) + 1, value) {
        assert forall|given: Result<Seq<u8>, E>| #[trigger] gives(storage, one, given) implies given
            == Ok::<Seq<u8>, E>(value@) by {
            lemma_answer_at(storage, one, be_nat(base) + 1, value, given);
        }
    }
    if fails_at(storage, be_nat(base) + 2, error) {
        assert forall|given: Result<Seq<u8>, E>| #[trigger] gives(storage, two, given) implies given
            == Err::<Seq<u8>, E>(error) by {
            lemma_failure_at(storage, two, be_nat(base) + 2, error, given);
        }
    }
    if answers_at(storage, be_nat(base) + 2, fee) {
        assert forall|given: Result<Seq<u8>, E>| #[trigger] gives(storage, two, given) implies given
            == Ok::<Seq<u8>, E>(fee@) by {
            lemma_answer_at(storage, two, be_nat(base) + 2, fee, given);
        }
    }
}

proof fn lemma_unreadable_entries<S, E>(
    storage: S,
    requests: Seq<RequestView>,
    failure: QueueError<E>,
    count: nat,
    read: Result<Seq<RequestView>, QueueError<E>>,
) where S: Fn([u8; 20], [u8; 32]) -> Result<Option<[u8; 32]>, E>
    requires
        count <= u64::MAX,
        requests.len() < u64::MAX,
        forall|i: int, entry: Result<RequestView, QueueError<E>>|
            0 <= i < requests.len() && #[trigger] may_read_entry(
                storage,
                i as u64,
                entry_slot(i as u64),
                entry,
            ) ==> entry == Ok::<RequestView, QueueError<E>>(requests[i]),
        forall|entry: Result<RequestView, QueueError<E>>| #[trigger]
            may_read_entry(
                storage,
                requests.len() as u64,
                entry_slot(requests.len() as u64),
                entry,
            ) ==> entry == Err::<RequestView, _>(failure),
        may_read_entries(storage, count, read),
    ensures
        count <= requests.len() ==> read is Ok,
        count > requests.len() ==> read == Err::<Seq<RequestView>, _>(failure),
    decreases count,
{
    if count > 0 {
        let last = (count - 1) as u64;
        let earlier = choose|earlier: Result<Seq<RequestView>, QueueError<E>>|
            may_read_entries(storage, (count - 1) as nat, earlier) && #[trigger] may_read_next(
                storage,
                last,
                earlier,
                read,
            );
        lemma_unreadable_entries(storage, requests, failure, (count - 1) as nat, earlier);
        if count <= requests.len() + 1 {
            let entry = choose|entry: Result<RequestView, QueueError<E>>| #[trigger]
                may_read_entry(storage, last, entry_slot(last), entry) && match entry {
                    Err(error) => read == Err::<Seq<RequestView>, _>(error),
                    Ok(entry) => read == Ok::<Seq<RequestView>, QueueError<E>>(
                        earlier->Ok_0.push(entry),
                    ),
                };
            assert(may_read_entry(
                storage,
                (count - 1) as u64,
                entry_slot((count - 1) as u64),
                entry,
            ));
        }
    }
}

/// A queue of which the number of requests, or any request, cannot be read is not read at all, and
/// the first failure is the one that is told.
pub proof fn lemma_unreadable_queue<S, E>(
    storage: S,
    count: [u8; 32],
    requests: Seq<RequestView>,
    error: E,
    failure: QueueError<E>,
    read: Result<Seq<RequestView>, QueueError<E>>,
) where S: Fn([u8; 20], [u8; 32]) -> Result<Option<[u8; 32]>, E>
    requires
        requests.len() < u64::MAX,
        may_read_queue(storage, read),
    ensures
        fails_at(storage, 0, error) ==> read == Err::<Seq<RequestView>, _>(
            QueueError::Storage(error),
        ),
        answers_at(storage, 0, count) && be_nat(count@) > requests.len() && (forall|
            i: int,
            entry: Result<RequestView, QueueError<E>>,
        |
            0 <= i < requests.len() && #[trigger] may_read_entry(
                storage,
                i as u64,
                entry_slot(i as u64),
                entry,
            ) ==> entry == Ok::<RequestView, QueueError<E>>(requests[i])) && (forall|
            entry: Result<RequestView, QueueError<E>>,
        | #[trigger]
            may_read_entry(
                storage,
                requests.len() as u64,
                entry_slot(requests.len() as u64),
                entry,
            ) ==> entry == Err::<RequestView, _>(failure)) ==> read == Err::<Seq<RequestView>, _>(
            failure,
        ),
{
    let given = choose|given: Result<Seq<u8>, E>| #[trigger]
        gives(storage, REQUEST_COUNT_SLOT@, given) && match given {
            Err(error) => read == Err::<Seq<RequestView>, _>(QueueError::Storage(error)),
            Ok(given) => may_read_entries(storage, saturate_u64(be_nat(given)) as nat, read),
        };
    lemma_zero_bytes(32);
    assert(REQUEST_COUNT_SLOT@ =~= be_bytes(0, 32));
    lemma_stored_number(0);
    lemma_slot_number(REQUEST_COUNT_SLOT@);
    if fails_at(storage, 0, error) {
        lemma_failure_at(storage, REQUEST_COUNT_SLOT@, 0, error, given);
    }
    if answers_at(storage, 0, count) && be_nat(count@) > requests.len() && (forall|
        i: int,
        entry: Result<RequestView, QueueError<E>>,
    |
        0 <= i < requests.len() && #[trigger] may_read_entry(
            storage,
            i as u64,
            entry_slot(i as u64),
            entry,
        ) ==> entry == Ok::<RequestView, QueueError<E>>(requests[i])) && (forall|
        entry: Result<RequestView, QueueError<E>>,
    | #[trigger]
        may_read_entry(
            storage,
            requests.len() as u64,
            entry_slot(requests.len() as u64),
            entry,
        ) ==> entry == Err::<RequestView, _>(failure)) {
        lemma_answer_at(storage, REQUEST_COUNT_SLOT@, 0, count, given);
        lemma_unreadable_entries(
            storage,
            requests,
            failure,
            saturate_u64(be_nat(count@)) as nat,
            read,
        );
    }
}

} // verus!
