//! The BIP300 "M6" transaction that pays a bundle out on Bitcoin.

use bitcoin::absolute::LockTime;
use bitcoin::transaction::Version;
use bitcoin::{Amount, OutPoint, Sequence, Txid, Witness};
use vstd::prelude::*;

use super::weight::{
    bundle_weight, tx_base_len, txin_base_len, txout_len, WITNESS_SCALE_FACTOR,
};
use crate::bags::sum_over;
use crate::hash::{keccak, keccak256};
use crate::words::{
    be_bytes, be_nat, byte_capacity, extend_bytes, lemma_be_bytes_injective, lemma_be_bytes_len,
    lemma_be_nat_of_be_bytes, u32_be_bytes, u64_be_bytes,
};

verus! {

/// An input of a Bitcoin transaction.
#[derive(Debug, Clone)]
pub struct TxIn {
    /// The spent output's transaction id, in consensus byte order.
    pub previous_txid: [u8; 32],
    pub previous_vout: u32,
    pub script_sig: Vec<u8>,
    pub sequence: u32,
    pub witness: Vec<Vec<u8>>,
}

/// What an input holds.
pub struct TxInView {
    pub previous_txid: Seq<u8>,
    pub previous_vout: u32,
    pub script_sig: Seq<u8>,
    pub sequence: u32,
    pub witness: Seq<Seq<u8>>,
}

/// An output of a Bitcoin transaction.
#[derive(Debug, Clone)]
pub struct TxOut {
    pub value_sats: u64,
    /// A raw scriptPubKey.
    pub script_pubkey: Vec<u8>,
}

/// What an output holds.
#[verifier::ext_equal]
pub struct TxOutView {
    pub value_sats: u64,
    pub script_pubkey: Seq<u8>,
}

/// A Bitcoin transaction.
#[derive(Debug, Clone)]
pub struct Transaction {
    pub version: i32,
    pub lock_time: u32,
    pub input: Vec<TxIn>,
    pub output: Vec<TxOut>,
}

/// What a transaction holds.
#[verifier::ext_equal]
pub struct TransactionView {
    pub version: i32,
    pub lock_time: u32,
    pub input: Seq<TxInView>,
    pub output: Seq<TxOutView>,
}

/// A withdrawal bundle: the M6 transaction, and the indices of the requests that it pays.
///
/// The transaction has no inputs: it is "blinded", and the enforcer attaches the input that spends
/// the mainchain treasury when the bundle is included in a block.
#[derive(Debug, Clone)]
pub struct WithdrawalBundle {
    pub request_indices: Vec<u64>,
    pub tx: Transaction,
}

impl View for TxIn {
    type V = TxInView;

    open spec fn view(&self) -> TxInView {
        TxInView {
            previous_txid: self.previous_txid@,
            previous_vout: self.previous_vout,
            script_sig: self.script_sig@,
            sequence: self.sequence,
            witness: self.witness@.map_values(|item: Vec<u8>| item@),
        }
    }
}

impl View for TxOut {
    type V = TxOutView;

    open spec fn view(&self) -> TxOutView {
        TxOutView { value_sats: self.value_sats, script_pubkey: self.script_pubkey@ }
    }
}

/// What a list of outputs holds.
pub open spec fn output_views(outputs: Seq<TxOut>) -> Seq<TxOutView> {
    outputs.map_values(|output: TxOut| output@)
}

impl View for Transaction {
    type V = TransactionView;

    open spec fn view(&self) -> TransactionView {
        TransactionView {
            version: self.version,
            lock_time: self.lock_time,
            input: self.input@.map_values(|input: TxIn| input@),
            output: output_views(self.output@),
        }
    }
}

/// A Bitcoin script that carries `data` in an unspendable output: `OP_RETURN`, then one push.
pub open spec fn op_return(data: Seq<u8>) -> Seq<u8> {
    seq![0x6au8, data.len() as u8] + data
}

/// The eight-byte big-endian encodings of `indices`, one after the other.
pub open spec fn indices_be(indices: Seq<u64>) -> Seq<u8>
    decreases indices.len(),
{
    if indices.len() == 0 {
        Seq::empty()
    } else {
        indices_be(indices.drop_last()) + be_bytes(indices.last() as nat, 8)
    }
}

/// What the requests commitment of a bundle hashes: the indices, then the block height.
pub open spec fn commitment_preimage(request_indices: Seq<u64>, block_height: u32) -> Seq<u8> {
    indices_be(request_indices) + be_bytes(block_height as nat, 4)
}

/// The requests commitment of a bundle.
pub open spec fn commitment(request_indices: Seq<u64>, block_height: u32) -> Seq<u8> {
    keccak(commitment_preimage(request_indices, block_height))
}

/// The M6 transaction: the mainchain-fee commitment, the requests commitment, and the payouts,
/// with no inputs.
pub open spec fn m6_transaction(
    total_main_fee_sats: u64,
    requests_commitment: Seq<u8>,
    payouts: Seq<TxOutView>,
) -> TransactionView {
    TransactionView {
        version: 2,
        lock_time: 0,
        input: Seq::empty(),
        output: seq![
            TxOutView {
                value_sats: 0,
                script_pubkey: op_return(be_bytes(total_main_fee_sats as nat, 8)),
            },
            TxOutView { value_sats: 0, script_pubkey: op_return(requests_commitment) },
        ] + payouts,
    }
}

/// Bytes of serialized `outputs`.
pub open spec fn outputs_size(outputs: Seq<TxOutView>) -> nat {
    sum_over(outputs, |output: TxOutView| txout_len(output.script_pubkey.len()))
}

/// Weight that the blinded transaction `tx` has once its one treasury input is attached.
pub open spec fn weight_with_treasury_input(tx: TransactionView) -> nat {
    WITNESS_SCALE_FACTOR as nat * tx_base_len(
        1,
        txin_base_len(0),
        tx.output.len(),
        outputs_size(tx.output),
    )
}

/// Bytes that a witness of these items takes at most: each item with its length prefix, and an
/// index into them.
pub open spec fn witness_size(witness: Seq<Seq<u8>>) -> nat {
    sum_over(witness, |item: Seq<u8>| item.len() + 9 + 4)
}

/// Whether every witness of `tx` can be indexed in 32 bits and held in memory. A blinded
/// transaction has no witness at all.
pub open spec fn witnesses_fit(tx: TransactionView) -> bool {
    forall|i: int|
        0 <= i < tx.input.len() ==> {
            &&& witness_size((#[trigger] tx.input[i]).witness) <= u32::MAX
            &&& witness_size(tx.input[i].witness) <= isize::MAX
        }
}

/// The id of a transaction, in consensus byte order.
pub uninterp spec fn transaction_id(tx: TransactionView) -> Seq<u8>;

/// The consensus serialization of a transaction.
pub uninterp spec fn consensus_encoding(tx: TransactionView) -> Seq<u8>;

/// Calls `bitcoin::Transaction::compute_txid` on the transaction that `tx` describes and returns
/// the id's bytes in consensus order. The call itself takes every transaction; it is
/// `bitcoin::Witness::from_slice`, which describes the witnesses, that panics on one that cannot be
/// indexed in 32 bits.
#[verifier::external_body]
fn compute_txid(tx: &Transaction) -> (txid: [u8; 32])
    requires
        witnesses_fit(tx@),
    ensures
        txid@ == transaction_id(tx@),
{
    let txid = <Txid as bitcoin::hashes::Hash>::from_byte_array;
    let input = tx.input.iter().map(|i| bitcoin::TxIn {
        previous_output: OutPoint::new(txid(i.previous_txid), i.previous_vout),
        script_sig: i.script_sig.clone().into(),
        sequence: Sequence(i.sequence),
        witness: Witness::from_slice(&i.witness),
    }).collect();
    let output = tx.output.iter().map(|o| bitcoin::TxOut {
        value: Amount::from_sat(o.value_sats),
        script_pubkey: o.script_pubkey.clone().into(),
    }).collect();
    let version = Version(tx.version);
    let lock_time = LockTime::from_consensus(tx.lock_time);
    let tx = bitcoin::Transaction { version, lock_time, input, output };
    bitcoin::hashes::Hash::to_byte_array(tx.compute_txid())
}

/// Calls `bitcoin::consensus::encode::serialize` on the transaction that `tx` describes, whose
/// witnesses are described as for [`compute_txid`].
#[verifier::external_body]
fn consensus_serialize(tx: &Transaction) -> (bytes: Vec<u8>)
    requires
        witnesses_fit(tx@),
    ensures
        bytes@ == consensus_encoding(tx@),
{
    let txid = <Txid as bitcoin::hashes::Hash>::from_byte_array;
    let input = tx.input.iter().map(|i| bitcoin::TxIn {
        previous_output: OutPoint::new(txid(i.previous_txid), i.previous_vout),
        script_sig: i.script_sig.clone().into(),
        sequence: Sequence(i.sequence),
        witness: Witness::from_slice(&i.witness),
    }).collect();
    let output = tx.output.iter().map(|o| bitcoin::TxOut {
        value: Amount::from_sat(o.value_sats),
        script_pubkey: o.script_pubkey.clone().into(),
    }).collect();
    let version = Version(tx.version);
    let lock_time = LockTime::from_consensus(tx.lock_time);
    let tx = bitcoin::Transaction { version, lock_time, input, output };
    bitcoin::consensus::encode::serialize(&tx)
}

/// Calls `bitcoin::script::Builder` to write `OP_RETURN` and one push of `data`, whose opcode for
/// fewer than 76 bytes is the length itself.
#[verifier::external_body]
fn op_return_script(data: &[u8]) -> (script: Vec<u8>)
    requires
        data@.len() < 76,
    ensures
        script@ == op_return(data@),
{
    let push = bitcoin::script::PushBytesBuf::try_from(data.to_vec()).expect("a short push fits");
    bitcoin::script::Builder::new()
        .push_opcode(bitcoin::opcodes::all::OP_RETURN)
        .push_slice(push)
        .into_script()
        .into_bytes()
}

impl Transaction {
    /// The transaction's consensus serialization.
    pub fn serialize(&self) -> (bytes: Vec<u8>)
        requires
            witnesses_fit(self@),
        ensures
            bytes@ == consensus_encoding(self@),
    {
        consensus_serialize(self)
    }
}

impl WithdrawalBundle {
    /// The bundle's M6 identifier: its (blinded) transaction id, in consensus byte order.
    pub fn m6id(&self) -> (m6id: [u8; 32])
        requires
            witnesses_fit(self.tx@),
        ensures
            m6id@ == transaction_id(self.tx@),
    {
        compute_txid(&self.tx)
    }
}

/// The bytes that the requests commitment hashes.
pub fn requests_preimage(request_indices: &[u64], block_height: u32) -> (preimage: Vec<u8>)
    ensures
        preimage@ == commitment_preimage(request_indices@, block_height),
{
    let mut preimage: Vec<u8> = Vec::new();
    let mut i: usize = 0;
    while i < request_indices.len()
        invariant
            i <= request_indices.len(),
            preimage@ == indices_be(request_indices@.take(i as int)),
        decreases request_indices.len() - i,
    {
        let encoded = u64_be_bytes(request_indices[i]);
        extend_bytes(&mut preimage, encoded.as_slice());
        proof {
            assert(request_indices@.take(i + 1).drop_last() =~= request_indices@.take(i as int));
        }
        i = i + 1;
    }
    proof {
        assert(request_indices@.take(i as int) =~= request_indices@);
    }
    let height = u32_be_bytes(block_height);
    extend_bytes(&mut preimage, height.as_slice());
    preimage
}

/// Commits to the requests that a bundle pays and to the block height it is proposed at, so that
/// two bundles with the same outputs at different heights do not collide.
pub fn requests_commitment(request_indices: &[u64], block_height: u32) -> (digest: [u8; 32])
    ensures
        digest@ == commitment(request_indices@, block_height),
{
    keccak256(requests_preimage(request_indices, block_height).as_slice())
}

/// The M6 transaction for a given requests commitment.
pub fn build_m6_transaction(
    total_main_fee_sats: u64,
    requests_commitment: [u8; 32],
    bundle_outputs: Vec<TxOut>,
) -> (tx: Transaction)
    ensures
        tx@ == m6_transaction(
            total_main_fee_sats,
            requests_commitment@,
            output_views(bundle_outputs@),
        ),
{
    let fee = u64_be_bytes(total_main_fee_sats);
    let mut bundle_outputs = bundle_outputs;
    let ghost payouts = bundle_outputs@;
    let mut output: Vec<TxOut> = Vec::new();
    output.push(TxOut { value_sats: 0, script_pubkey: op_return_script(fee.as_slice()) });
    output.push(
        TxOut { value_sats: 0, script_pubkey: op_return_script(requests_commitment.as_slice()) },
    );
    output.append(&mut bundle_outputs);
    let tx = Transaction { version: 2, lock_time: 0, input: Vec::new(), output };
    proof {
        assert(tx@ =~~= m6_transaction(
            total_main_fee_sats,
            requests_commitment@,
            output_views(payouts),
        ));
    }
    tx
}

/// Builds the bundle that pays `bundle_outputs` for the requests `request_indices`.
pub fn build_withdrawal_bundle(
    block_height: u32,
    total_main_fee_sats: u64,
    request_indices: Vec<u64>,
    bundle_outputs: Vec<TxOut>,
) -> (bundle: WithdrawalBundle)
    ensures
        bundle.request_indices == request_indices,
        bundle.tx@ == m6_transaction(
            total_main_fee_sats,
            commitment(request_indices@, block_height),
            output_views(bundle_outputs@),
        ),
        commitment(request_indices@, block_height).len() == 32,
{
    let digest = requests_commitment(request_indices.as_slice(), block_height);
    let tx = build_m6_transaction(total_main_fee_sats, digest, bundle_outputs);
    WithdrawalBundle { request_indices, tx }
}

proof fn lemma_outputs_size_concat(a: Seq<TxOutView>, b: Seq<TxOutView>)
    ensures
        outputs_size(a + b) == outputs_size(a) + outputs_size(b),
    decreases b.len(),
{
    if b.len() == 0 {
        assert(a + b =~= a);
    } else {
        assert((a + b).drop_last() =~= a + b.drop_last());
        lemma_outputs_size_concat(a, b.drop_last());
    }
}

/// The predicted weight of a bundle is the weight of its transaction.
pub proof fn lemma_predicted_weight_is_exact(
    total_main_fee_sats: u64,
    requests_commitment: Seq<u8>,
    payouts: Seq<TxOutView>,
)
    requires
        requests_commitment.len() == 32,
    ensures
        weight_with_treasury_input(
            m6_transaction(total_main_fee_sats, requests_commitment, payouts),
        ) == bundle_weight(payouts.len(), outputs_size(payouts)),
{
    let tx = m6_transaction(total_main_fee_sats, requests_commitment, payouts);
    let commitments = tx.output.take(2);
    assert(tx.output =~= commitments + payouts);
    lemma_outputs_size_concat(commitments, payouts);
    lemma_be_bytes_len(total_main_fee_sats as nat, 8);
    assert(commitments.drop_last().drop_last() =~= Seq::empty());
    reveal_with_fuel(sum_over, 3);
    assert(outputs_size(commitments) == txout_len(10) + txout_len(34));
}

proof fn lemma_indices_be_len(indices: Seq<u64>)
    ensures
        indices_be(indices).len() == 8 * indices.len(),
    decreases indices.len(),
{
    if indices.len() > 0 {
        lemma_indices_be_len(indices.drop_last());
        lemma_be_bytes_len(indices.last() as nat, 8);
    }
}

proof fn lemma_indices_be_injective(a: Seq<u64>, b: Seq<u64>)
    requires
        indices_be(a) == indices_be(b),
    ensures
        a == b,
    decreases a.len(),
{
    lemma_indices_be_len(a);
    lemma_indices_be_len(b);
    if a.len() > 0 {
        let (rest_a, rest_b) = (indices_be(a.drop_last()), indices_be(b.drop_last()));
        lemma_indices_be_len(a.drop_last());
        lemma_indices_be_len(b.drop_last());
        lemma_be_bytes_len(a.last() as nat, 8);
        lemma_be_bytes_len(b.last() as nat, 8);
        let n = rest_a.len() as int;
        assert(indices_be(a).take(n) =~= rest_a);
        assert(indices_be(b).take(n) =~= rest_b);
        assert(indices_be(a).skip(n) =~= be_bytes(a.last() as nat, 8));
        assert(indices_be(b).skip(n) =~= be_bytes(b.last() as nat, 8));
        lemma_indices_be_injective(a.drop_last(), b.drop_last());
        reveal_with_fuel(byte_capacity, 9);
        lemma_be_bytes_injective(a.last() as nat, b.last() as nat, 8);
        assert(a =~= a.drop_last().push(a.last()));
        assert(b =~= b.drop_last().push(b.last()));
    } else {
        assert(a =~= b);
    }
}

/// The requests commitment hashes different bytes for different requests or different heights.
pub proof fn lemma_commitment_preimage_injective(
    indices_a: Seq<u64>,
    height_a: u32,
    indices_b: Seq<u64>,
    height_b: u32,
)
    requires
        commitment_preimage(indices_a, height_a) == commitment_preimage(indices_b, height_b),
    ensures
        indices_a == indices_b,
        height_a == height_b,
{
    let (a, b) = (
        commitment_preimage(indices_a, height_a),
        commitment_preimage(indices_b, height_b),
    );
    lemma_indices_be_len(indices_a);
    lemma_indices_be_len(indices_b);
    lemma_be_bytes_len(height_a as nat, 4);
    lemma_be_bytes_len(height_b as nat, 4);
    let n = indices_be(indices_a).len() as int;
    assert(a.len() == 8 * indices_a.len() + 4);
    assert(b.len() == 8 * indices_b.len() + 4);
    assert(a.take(n) =~= indices_be(indices_a));
    assert(b.take(n) =~= indices_be(indices_b));
    assert(a.skip(n) =~= be_bytes(height_a as nat, 4));
    assert(b.skip(n) =~= be_bytes(height_b as nat, 4));
    lemma_indices_be_injective(indices_a, indices_b);
    reveal_with_fuel(byte_capacity, 5);
    lemma_be_bytes_injective(height_a as nat, height_b as nat, 4);
}

/// An M6 transaction tells what it was built from: the fee, the commitment and the payouts.
pub proof fn lemma_m6_transaction_injective(
    fee_a: u64,
    commitment_a: Seq<u8>,
    payouts_a: Seq<TxOutView>,
    fee_b: u64,
    commitment_b: Seq<u8>,
    payouts_b: Seq<TxOutView>,
)
    requires
        m6_transaction(fee_a, commitment_a, payouts_a) == m6_transaction(
            fee_b,
            commitment_b,
            payouts_b,
        ),
    ensures
        fee_a == fee_b,
        commitment_a == commitment_b,
        payouts_a == payouts_b,
{
    let a = m6_transaction(fee_a, commitment_a, payouts_a).output;
    let b = m6_transaction(fee_b, commitment_b, payouts_b).output;
    assert(a.skip(2) =~= payouts_a);
    assert(b.skip(2) =~= payouts_b);
    assert(a[0].script_pubkey.skip(2) =~= be_bytes(fee_a as nat, 8));
    assert(b[0].script_pubkey.skip(2) =~= be_bytes(fee_b as nat, 8));
    assert(a[1].script_pubkey.skip(2) =~= commitment_a);
    assert(b[1].script_pubkey.skip(2) =~= commitment_b);
    reveal_with_fuel(byte_capacity, 9);
    lemma_be_bytes_injective(fee_a as nat, fee_b as nat, 8);
}

proof fn lemma_index_at(indices: Seq<u64>, i: int)
    requires
        0 <= i < indices.len(),
    ensures
        indices_be(indices).subrange(8 * i, 8 * i + 8) == be_bytes(indices[i] as nat, 8),
    decreases indices.len(),
{
    let rest = indices.drop_last();
    lemma_indices_be_len(indices);
    lemma_indices_be_len(rest);
    lemma_be_bytes_len(indices.last() as nat, 8);
    let bytes = indices_be(indices);
    if i < rest.len() {
        lemma_index_at(rest, i);
        assert(bytes.subrange(8 * i, 8 * i + 8) =~= indices_be(rest).subrange(8 * i, 8 * i + 8));
    } else {
        assert(bytes.subrange(8 * i, 8 * i + 8) =~= be_bytes(indices[i] as nat, 8));
    }
}

/// The requests commitment is the hash of the indices in their order, eight bytes each, and of the
/// height in four, most significant byte first.
pub proof fn lemma_commitment_is_hashed(indices: Seq<u64>, block_height: u32)
    ensures
        commitment(indices, block_height) == keccak(commitment_preimage(indices, block_height)),
        ({
            let preimage = commitment_preimage(indices, block_height);
            let n = indices.len() as int;
            &&& preimage.len() == 8 * n + 4
            &&& be_nat(preimage.subrange(8 * n, 8 * n + 4)) == block_height
            &&& forall|i: int|
                0 <= i < n ==> be_nat(preimage.subrange(8 * i, 8 * i + 8)) == #[trigger] indices[i]
        }),
{
    let preimage = commitment_preimage(indices, block_height);
    let n = indices.len() as int;
    lemma_indices_be_len(indices);
    lemma_be_bytes_len(block_height as nat, 4);
    reveal_with_fuel(byte_capacity, 9);
    lemma_be_nat_of_be_bytes(block_height as nat, 4);
    vstd::arithmetic::div_mod::lemma_small_mod(block_height as nat, byte_capacity(4));
    assert(preimage.subrange(8 * n, 8 * n + 4) =~= be_bytes(block_height as nat, 4));
    assert forall|i: int| 0 <= i < n implies be_nat(preimage.subrange(8 * i, 8 * i + 8))
        == #[trigger] indices[i] by {
        lemma_index_at(indices, i);
        assert(preimage.subrange(8 * i, 8 * i + 8) =~= indices_be(indices).subrange(
            8 * i,
            8 * i + 8,
        ));
        lemma_be_nat_of_be_bytes(indices[i] as nat, 8);
        vstd::arithmetic::div_mod::lemma_small_mod(indices[i] as nat, byte_capacity(8));
    }
}

/// What an M6 transaction holds, output by output: first the fee, in eight bytes behind `OP_RETURN`
/// and a push; then the requests commitment in the same way; then the payouts as they are. It
/// spends nothing yet.
pub proof fn lemma_m6_outputs(fee: u64, requests_commitment: Seq<u8>, payouts: Seq<TxOutView>)
    requires
        requests_commitment.len() == 32,
    ensures
        ({
            let tx = m6_transaction(fee, requests_commitment, payouts);
            &&& tx.version == 2
            &&& tx.lock_time == 0
            &&& tx.input.len() == 0
            &&& tx.output.len() == 2 + payouts.len()
            &&& tx.output[0].value_sats == 0
            &&& tx.output[0].script_pubkey.len() == 10
            &&& tx.output[0].script_pubkey[0] == 0x6a
            &&& tx.output[0].script_pubkey[1] == 8
            &&& be_nat(tx.output[0].script_pubkey.skip(2)) == fee
            &&& tx.output[1].value_sats == 0
            &&& tx.output[1].script_pubkey.len() == 34
            &&& tx.output[1].script_pubkey[0] == 0x6a
            &&& tx.output[1].script_pubkey[1] == 32
            &&& tx.output[1].script_pubkey.skip(2) == requests_commitment
            &&& forall|i: int|
                0 <= i < payouts.len() ==> tx.output[i + 2] == #[trigger] payouts[i]
        }),
{
    let tx = m6_transaction(fee, requests_commitment, payouts);
    lemma_be_bytes_len(fee as nat, 8);
    reveal_with_fuel(byte_capacity, 9);
    lemma_be_nat_of_be_bytes(fee as nat, 8);
    vstd::arithmetic::div_mod::lemma_small_mod(fee as nat, byte_capacity(8));
    assert(tx.output[0].script_pubkey.skip(2) =~= be_bytes(fee as nat, 8));
    assert(tx.output[1].script_pubkey.skip(2) =~= requests_commitment);
}

/// What is said of a transaction is said of its fields as they are, and of each output in its
/// place.
pub proof fn lemma_transaction_views(tx: Transaction, outputs: Seq<TxOut>, i: int)
    ensures
        tx@.version == tx.version,
        tx@.lock_time == tx.lock_time,
        tx@.input.len() == tx.input@.len(),
        tx@.output == output_views(tx.output@),
        output_views(outputs).len() == outputs.len(),
        0 <= i < outputs.len() ==> output_views(outputs)[i].value_sats == outputs[i].value_sats,
        0 <= i < outputs.len() ==> output_views(outputs)[i].script_pubkey
            == outputs[i].script_pubkey@,
        0 <= i < tx.input@.len() ==> {
            let (shown, input) = (tx@.input[i], tx.input@[i]);
            &&& shown.previous_txid == input.previous_txid@
            &&& shown.previous_vout == input.previous_vout
            &&& shown.script_sig == input.script_sig@
            &&& shown.sequence == input.sequence
            &&& shown.witness.len() == input.witness@.len()
            &&& forall|k: int|
                0 <= k < input.witness@.len() ==> shown.witness[k] == (
                #[trigger] input.witness@[k])@
        },
{
}

/// A blinded transaction can be serialized whatever it pays, and so can one whose witnesses take
/// less than `2^31` bytes each, with 13 more for each item.
pub proof fn lemma_witnesses_that_fit(tx: TransactionView)
    ensures
        tx.input.len() == 0 ==> witnesses_fit(tx),
        (forall|i: int|
            0 <= i < tx.input.len() ==> sum_over(
                (#[trigger] tx.input[i]).witness,
                |item: Seq<u8>| item.len() + 13,
            ) <= 0x7FFF_FFFF) ==> witnesses_fit(tx),
{
    if forall|i: int|
        0 <= i < tx.input.len() ==> sum_over(
            (#[trigger] tx.input[i]).witness,
            |item: Seq<u8>| item.len() + 13,
        ) <= 0x7FFF_FFFF {
        assert forall|i: int| 0 <= i < tx.input.len() implies {
            &&& witness_size((#[trigger] tx.input[i]).witness) <= u32::MAX
            &&& witness_size(tx.input[i].witness) <= isize::MAX
        } by {
            assert((|item: Seq<u8>| item.len() + 13) =~= (|item: Seq<u8>| item.len() + 9 + 4));
        }
    }
}

} // verus!
