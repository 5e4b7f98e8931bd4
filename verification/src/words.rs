//! Big-endian integers: fixed-width encodings and arithmetic on 32-byte storage words.

use vstd::arithmetic::power::pow;
use vstd::prelude::*;

verus! {

/// The number that `bytes` spell in base 256, most significant byte first.
pub open spec fn be_nat(bytes: Seq<u8>) -> nat
    decreases bytes.len(),
{
    if bytes.len() == 0 {
        0
    } else {
        be_nat(bytes.drop_last()) * 256 + bytes.last() as nat
    }
}

/// The low `len` base-256 digits of `n`, most significant first.
pub open spec fn be_bytes(n: nat, len: nat) -> Seq<u8>
    decreases len,
{
    if len == 0 {
        Seq::empty()
    } else {
        be_bytes(n / 256, (len - 1) as nat).push((n % 256) as u8)
    }
}

/// 256 to the power `len`: how many values `len` bytes can hold.
pub open spec fn byte_capacity(len: nat) -> nat
    decreases len,
{
    if len == 0 {
        1
    } else {
        256 * byte_capacity((len - 1) as nat)
    }
}

/// The storage slot `offset` places after `slot`, wrapping around after the last one.
pub open spec fn slot_plus(slot: Seq<u8>, offset: nat) -> Seq<u8> {
    be_bytes(be_nat(slot) + offset, 32)
}

/// `n`, cut down to the largest `u64`.
pub open spec fn saturate_u64(n: nat) -> u64 {
    if n > u64::MAX {
        u64::MAX
    } else {
        n as u64
    }
}

/// `n`, cut down to the largest `u32`.
pub open spec fn saturate_u32(n: nat) -> u32 {
    if n > u32::MAX {
        u32::MAX
    } else {
        n as u32
    }
}

/// `n`, cut down to the largest `usize`.
pub open spec fn saturate_usize(n: nat) -> usize {
    if n > usize::MAX {
        usize::MAX
    } else {
        n as usize
    }
}

pub proof fn lemma_be_bytes_len(n: nat, len: nat)
    ensures
        be_bytes(n, len).len() == len,
    decreases len,
{
    if len > 0 {
        lemma_be_bytes_len(n / 256, (len - 1) as nat);
    }
}

/// Decoding an encoding gives the number back, up to what the width can hold.
pub proof fn lemma_be_nat_of_be_bytes(n: nat, len: nat)
    ensures
        be_nat(be_bytes(n, len)) == n % byte_capacity(len),
    decreases len,
{
    if len > 0 {
        let rest = be_bytes(n / 256, (len - 1) as nat);
        lemma_be_nat_of_be_bytes(n / 256, (len - 1) as nat);
        assert(be_bytes(n, len).drop_last() =~= rest);
        let c = byte_capacity((len - 1) as nat);
        lemma_byte_capacity_positive((len - 1) as nat);
        vstd::arithmetic::div_mod::lemma_mod_breakdown(n as int, 256, c as int);
        assert(n % (256 * c) == 256 * ((n / 256) % c) + n % 256);
    } else {
        assert(n % 1 == 0);
    }
}

pub proof fn lemma_byte_capacity_positive(len: nat)
    ensures
        byte_capacity(len) > 0,
    decreases len,
{
    if len > 0 {
        lemma_byte_capacity_positive((len - 1) as nat);
    }
}

/// Encoding a decoded number at the same width gives the bytes back.
pub proof fn lemma_be_bytes_of_be_nat(bytes: Seq<u8>)
    ensures
        be_bytes(be_nat(bytes), bytes.len()) == bytes,
    decreases bytes.len(),
{
    if bytes.len() > 0 {
        let rest = bytes.drop_last();
        lemma_be_bytes_of_be_nat(rest);
        let n = be_nat(bytes);
        assert(n / 256 == be_nat(rest));
        assert(n % 256 == bytes.last() as nat);
        assert(rest.push(bytes.last()) =~= bytes);
    } else {
        assert(bytes =~= Seq::empty());
    }
}

/// Numbers that fit in `len` bytes have distinct encodings.
pub proof fn lemma_be_bytes_injective(a: nat, b: nat, len: nat)
    requires
        a < byte_capacity(len),
        b < byte_capacity(len),
        be_bytes(a, len) == be_bytes(b, len),
    ensures
        a == b,
{
    lemma_be_nat_of_be_bytes(a, len);
    lemma_be_nat_of_be_bytes(b, len);
    vstd::arithmetic::div_mod::lemma_small_mod(a, byte_capacity(len));
    vstd::arithmetic::div_mod::lemma_small_mod(b, byte_capacity(len));
}

/// Only the low `len` bytes of a number matter to its encoding.
pub proof fn lemma_be_bytes_wraps(n: nat, len: nat)
    ensures
        be_bytes(n % byte_capacity(len), len) == be_bytes(n, len),
{
    lemma_be_nat_of_be_bytes(n, len);
    lemma_be_bytes_len(n, len);
    lemma_be_bytes_of_be_nat(be_bytes(n, len));
}

/// Stepping `a` slots and then `b` more is stepping `a + b` slots.
pub proof fn lemma_slot_plus_plus(slot: Seq<u8>, a: nat, b: nat)
    ensures
        slot_plus(slot_plus(slot, a), b) == slot_plus(slot, a + b),
{
    let n = be_nat(slot);
    let c = byte_capacity(32);
    lemma_byte_capacity_positive(32);
    lemma_be_nat_of_be_bytes(n + a, 32);
    lemma_be_bytes_wraps((n + a) % c + b, 32);
    lemma_be_bytes_wraps(n + a + b, 32);
    vstd::arithmetic::div_mod::lemma_add_mod_noop(((n + a) % c) as int, b as int, c as int);
    vstd::arithmetic::div_mod::lemma_add_mod_noop((n + a) as int, b as int, c as int);
    vstd::arithmetic::div_mod::lemma_mod_twice((n + a) as int, c as int);
}

/// One step of an encoder that fills `after` from the back: the digit it writes at `i` moves from
/// the number still to be written to the bytes already there.
proof fn lemma_push_digit(rest: nat, i: nat, before: Seq<u8>, after: Seq<u8>)
    requires
        i < before.len(),
        after == before.update(i as int, (rest % 256) as u8),
    ensures
        be_bytes(rest, i + 1) + before.skip(i as int + 1) == be_bytes(rest / 256, i)
            + after.skip(i as int),
{
    lemma_be_bytes_len(rest / 256, i);
    assert(be_bytes(rest, i + 1) + before.skip(i as int + 1) =~= be_bytes(rest / 256, i)
        + after.skip(i as int));
}

/// The eight-byte big-endian encoding of `n`.
pub fn u64_be_bytes(n: u64) -> (bytes: [u8; 8])
    ensures
        bytes@ == be_bytes(n as nat, 8),
{
    let mut bytes: [u8; 8] = [0; 8];
    let mut rest: u64 = n;
    let mut i: usize = 8;
    while i > 0
        invariant
            i <= 8,
            be_bytes(n as nat, 8) == be_bytes(rest as nat, i as nat) + bytes@.skip(i as int),
        decreases i,
    {
        let ghost before = bytes@;
        i = i - 1;
        bytes[i] = (rest % 256) as u8;
        proof {
            lemma_push_digit(rest as nat, i as nat, before, bytes@);
        }
        rest = rest / 256;
    }
    proof {
        assert(be_bytes(rest as nat, 0) + bytes@.skip(0) =~= bytes@);
    }
    bytes
}

/// The four-byte big-endian encoding of `n`.
pub fn u32_be_bytes(n: u32) -> (bytes: [u8; 4])
    ensures
        bytes@ == be_bytes(n as nat, 4),
{
    let mut bytes: [u8; 4] = [0; 4];
    let mut rest: u32 = n;
    let mut i: usize = 4;
    while i > 0
        invariant
            i <= 4,
            be_bytes(n as nat, 4) == be_bytes(rest as nat, i as nat) + bytes@.skip(i as int),
        decreases i,
    {
        let ghost before = bytes@;
        i = i - 1;
        bytes[i] = (rest % 256) as u8;
        proof {
            lemma_push_digit(rest as nat, i as nat, before, bytes@);
        }
        rest = rest / 256;
    }
    proof {
        assert(be_bytes(rest as nat, 0) + bytes@.skip(0) =~= bytes@);
    }
    bytes
}

/// The storage word that holds `n`.
pub fn u64_word(n: u64) -> (word: [u8; 32])
    ensures
        word@ == be_bytes(n as nat, 32),
{
    let mut word: [u8; 32] = [0; 32];
    let mut rest: u64 = n;
    let mut i: usize = 32;
    while i > 0
        invariant
            i <= 32,
            be_bytes(n as nat, 32) == be_bytes(rest as nat, i as nat) + word@.skip(i as int),
        decreases i,
    {
        let ghost before = word@;
        i = i - 1;
        word[i] = (rest % 256) as u8;
        proof {
            lemma_push_digit(rest as nat, i as nat, before, word@);
        }
        rest = rest / 256;
    }
    proof {
        assert(be_bytes(rest as nat, 0) + word@.skip(0) =~= word@);
    }
    word
}

/// The storage slot `offset` places after `slot`.
pub fn add_slot(slot: [u8; 32], offset: u64) -> (sum: [u8; 32])
    ensures
        sum@ == slot_plus(slot@, offset as nat),
{
    let mut sum: [u8; 32] = [0; 32];
    let mut carry: u128 = offset as u128;
    let mut i: usize = 32;
    proof {
        assert(slot@.take(32) =~= slot@);
        assert(be_bytes(be_nat(slot@) + offset as nat, 32) + sum@.skip(32) =~= slot_plus(
            slot@,
            offset as nat,
        ));
    }
    while i > 0
        invariant
            i <= 32,
            carry <= u64::MAX,
            slot_plus(slot@, offset as nat) == be_bytes(
                be_nat(slot@.take(i as int)) + carry as nat,
                i as nat,
            ) + sum@.skip(i as int),
        decreases i,
    {
        let ghost before = sum@;
        let ghost rest = be_nat(slot@.take(i as int)) + carry as nat;
        i = i - 1;
        let digit: u128 = slot[i] as u128 + carry;
        sum[i] = (digit % 256) as u8;
        carry = digit / 256;
        proof {
            assert(slot@.take(i + 1).drop_last() =~= slot@.take(i as int));
            assert(rest / 256 == be_nat(slot@.take(i as int)) + carry as nat);
            assert(rest % 256 == digit % 256);
            lemma_push_digit(rest, i as nat, before, sum@);
        }
    }
    proof {
        assert(be_bytes(be_nat(slot@.take(0)) + carry as nat, 0) + sum@.skip(0) =~= sum@);
    }
    sum
}

/// The number that a big-endian word spells, cut down to `cap`.
fn capped_be_nat(word: &[u8; 32], cap: u128) -> (value: u128)
    requires
        cap <= 0x1_0000_0000_0000_0000_0000,
    ensures
        value == if be_nat(word@) > cap { cap as nat } else { be_nat(word@) },
{
    let mut value: u128 = 0;
    let mut i: usize = 0;
    while i < 32
        invariant
            i <= 32,
            cap <= 0x1_0000_0000_0000_0000_0000,
            value == if be_nat(word@.take(i as int)) > cap {
                cap as nat
            } else {
                be_nat(word@.take(i as int))
            },
        decreases 32 - i,
    {
        let next: u128 = value * 256 + word[i] as u128;
        proof {
            assert(word@.take(i + 1).drop_last() =~= word@.take(i as int));
        }
        value = if next > cap {
            cap
        } else {
            next
        };
        i = i + 1;
    }
    proof {
        assert(word@.take(32) =~= word@);
    }
    value
}

/// The number that a storage word spells, cut down to the largest `u64`.
pub fn word_to_u64(word: &[u8; 32]) -> (value: u64)
    ensures
        value == saturate_u64(be_nat(word@)),
{
    capped_be_nat(word, u64::MAX as u128) as u64
}

/// Half the number that a storage word spells, rounded down and cut down to the largest `usize`.
pub fn half_word_to_usize(word: &[u8; 32]) -> (value: usize)
    ensures
        value == saturate_usize(be_nat(word@) / 2),
{
    let half: u128 = capped_be_nat(word, 0x4_0000_0000_0000_0000) / 2;
    if half > usize::MAX as u128 {
        usize::MAX
    } else {
        half as usize
    }
}

/// Appends `tail` to `bytes`.
pub fn extend_bytes(bytes: &mut Vec<u8>, tail: &[u8])
    ensures
        final(bytes)@ == old(bytes)@ + tail@,
{
    let ghost before = bytes@;
    bytes.extend_from_slice(tail);
    proof {
        assert(bytes@ =~= before + tail@);
    }
}

/// The bytes of a vector as an array.
pub fn to_array<const N: usize>(bytes: &Vec<u8>) -> (array: [u8; N])
    requires
        bytes@.len() == N,
    ensures
        array@ == bytes@,
{
    let mut array: [u8; N] = [0; N];
    let mut i: usize = 0;
    while i < N
        invariant
            i <= N,
            bytes@.len() == N,
            forall|j: int| 0 <= j < i ==> array@[j] == bytes@[j],
        decreases N - i,
    {
        array[i] = bytes[i];
        i = i + 1;
    }
    proof {
        assert(array@ =~= bytes@);
    }
    array
}

/// Whether two 32-byte words hold the same bytes.
pub fn words_equal(a: &[u8; 32], b: &[u8; 32]) -> (equal: bool)
    ensures
        equal == (a@ == b@),
        equal == (*a == *b),
{
    let mut i: usize = 0;
    while i < 32
        invariant
            i <= 32,
            forall|j: int| 0 <= j < i ==> a@[j] == b@[j],
        decreases 32 - i,
    {
        if a[i] != b[i] {
            return false;
        }
        i = i + 1;
    }
    proof {
        assert(a@ =~= b@);
        assert(*a =~= *b);
    }
    true
}

/// The `i`-th byte from the end of an encoding is the digit of `256^i`.
pub proof fn lemma_be_bytes_digits(n: nat, len: nat, i: nat)
    requires
        i < len,
    ensures
        be_bytes(n, len).len() == len,
        be_bytes(n, len)[len - 1 - i] == (n as int / pow(256, i)) % 256,
    decreases len,
{
    lemma_be_bytes_len(n, len);
    lemma_be_bytes_len(n / 256, (len - 1) as nat);
    if i == 0 {
        vstd::arithmetic::power::lemma_pow0(256);
    } else {
        let j = (i - 1) as nat;
        lemma_be_bytes_digits(n / 256, (len - 1) as nat, j);
        vstd::arithmetic::power::lemma_pow_positive(256, j);
        reveal(pow);
        assert(pow(256, i) == 256 * pow(256, j));
        vstd::arithmetic::div_mod::lemma_div_denominator(n as int, 256, pow(256, j));
    }
}

/// Bytes spell a number most significant byte first: a byte by itself is its value, and what stands
/// before `b` counts `256^|b|` times.
pub proof fn lemma_be_nat_concat(a: Seq<u8>, b: Seq<u8>, byte: u8)
    ensures
        be_nat(Seq::empty()) == 0,
        be_nat(seq![byte]) == byte,
        be_nat(a + b) == be_nat(a) * pow(256, b.len()) + be_nat(b),
    decreases b.len(),
{
    assert(seq![byte].drop_last() =~= Seq::empty());
    reveal_with_fuel(be_nat, 2);
    if b.len() == 0 {
        vstd::arithmetic::power::lemma_pow0(256);
        assert(a + b =~= a);
    } else {
        let rest = b.drop_last();
        lemma_be_nat_concat(a, rest, byte);
        assert((a + b).drop_last() =~= a + rest);
        reveal(pow);
        let (x, p) = (be_nat(a) as int, pow(256, rest.len()));
        assert(pow(256, b.len()) == 256 * p);
        assert((x * p) * 256 == x * (256 * p)) by (nonlinear_arith);
        assert((x * p + be_nat(rest)) * 256 == (x * p) * 256 + be_nat(rest) * 256)
            by (nonlinear_arith);
    }
}

proof fn lemma_byte_capacity_is_pow(len: nat)
    ensures
        byte_capacity(len) == pow(256, len),
    decreases len,
{
    reveal(pow);
    if len > 0 {
        lemma_byte_capacity_is_pow((len - 1) as nat);
    }
}

/// A slot is a number of 32 bytes, and a later slot is a larger number, until they wrap around.
pub proof fn lemma_slot_plus_adds(slot: Seq<u8>, offset: nat)
    ensures
        slot_plus(slot, offset).len() == 32,
        be_nat(slot_plus(slot, offset)) == (be_nat(slot) + offset) as int % pow(256, 32),
{
    lemma_be_bytes_len(be_nat(slot) + offset, 32);
    lemma_be_nat_of_be_bytes(be_nat(slot) + offset, 32);
    lemma_byte_capacity_is_pow(32);
}

/// Cutting a number down leaves it alone where it fits, and gives the largest one where it does
/// not.
pub proof fn lemma_saturate(n: nat)
    ensures
        n <= 0xFFFF_FFFF ==> saturate_u32(n) == n,
        n > 0xFFFF_FFFF ==> saturate_u32(n) == 0xFFFF_FFFF,
        n <= 0xFFFF_FFFF_FFFF_FFFF ==> saturate_u64(n) == n,
        n > 0xFFFF_FFFF_FFFF_FFFF ==> saturate_u64(n) == 0xFFFF_FFFF_FFFF_FFFF,
        n <= usize::MAX ==> saturate_usize(n) == n,
        n > usize::MAX ==> saturate_usize(n) == usize::MAX,
{
}

} // verus!
