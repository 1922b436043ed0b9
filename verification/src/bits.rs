//! Bit sequences and their packing into bytes.
//!
//! Bits are laid out eight per byte with the first bit of a sequence in the
//! least significant position. The encoder and the decoder share this order.

use vstd::prelude::*;

verus! {

/// Bit `i` of a byte, counted from the least significant one.
pub open spec fn byte_bit(b: u8, i: int) -> bool {
    (b >> (i as u8)) & 1u8 == 1u8
}

/// `mask` if the sequence has a set bit at `j`, zero otherwise.
pub open spec fn bit_or_zero(bits: Seq<bool>, j: int, mask: u8) -> u8 {
    if j < bits.len() && bits[j] {
        mask
    } else {
        0u8
    }
}

/// The byte made of the first eight bits of a sequence. Where the sequence
/// is shorter, the missing high bits are zero.
pub open spec fn byte_of(bits: Seq<bool>) -> u8 {
    bit_or_zero(bits, 0, 1) | bit_or_zero(bits, 1, 2) | bit_or_zero(bits, 2, 4) | bit_or_zero(
        bits,
        3,
        8,
    ) | bit_or_zero(bits, 4, 16) | bit_or_zero(bits, 5, 32) | bit_or_zero(bits, 6, 64)
        | bit_or_zero(bits, 7, 128)
}

/// The bits of a byte, least significant first.
pub open spec fn bits_of_byte(b: u8) -> Seq<bool> {
    Seq::new(8, |j: int| byte_bit(b, j))
}

/// The bits of a byte sequence: eight per byte, in order.
pub open spec fn unpack(bytes: Seq<u8>) -> Seq<bool> {
    Seq::new(8 * bytes.len(), |k: int| byte_bit(bytes[k / 8], k % 8))
}

/// The whole bytes of a bit sequence. Up to seven trailing bits that do not
/// fill a byte are left out; `tail` gives them.
pub open spec fn pack(bits: Seq<bool>) -> Seq<u8> {
    Seq::new(bits.len() / 8, |k: int| byte_of(bits.skip(8 * k)))
}

/// The bits after the last whole byte of a bit sequence: fewer than eight.
pub open spec fn tail(bits: Seq<bool>) -> Seq<bool> {
    bits.skip(8 * (bits.len() / 8) as int)
}

/// A run of `n` zero bits.
pub open spec fn zeros(n: nat) -> Seq<bool> {
    Seq::new(n, |k: int| false)
}

/// The number of zero bits that fill a sequence of `n` bits up to a whole
/// number of bytes.
pub open spec fn padding_len(n: nat) -> nat {
    ((8 - n % 8) % 8) as nat
}

/// The bytes of a bit sequence whose last byte, if partial, is filled up
/// with zero bits.
pub open spec fn pack_padded(bits: Seq<bool>) -> Seq<u8> {
    Seq::new((bits.len() + 7) / 8, |k: int| byte_of(bits.skip(8 * k)))
}

/// Whether `a` is a prefix of `b`.
pub open spec fn is_prefix(a: Seq<bool>, b: Seq<bool>) -> bool {
    a.len() <= b.len() && b.take(a.len() as int) == a
}

proof fn lemma_compose_bits(
    b0: bool,
    b1: bool,
    b2: bool,
    b3: bool,
    b4: bool,
    b5: bool,
    b6: bool,
    b7: bool,
)
    by (bit_vector)
    ensures
        ({
            let x: u8 = (if b0 { 1u8 } else { 0u8 }) | (if b1 { 2u8 } else { 0u8 }) | (if b2 {
                4u8
            } else {
                0u8
            }) | (if b3 { 8u8 } else { 0u8 }) | (if b4 { 16u8 } else { 0u8 }) | (if b5 {
                32u8
            } else {
                0u8
            }) | (if b6 { 64u8 } else { 0u8 }) | (if b7 { 128u8 } else { 0u8 });
            &&& ((x >> 0u8) & 1u8 == 1u8) == b0
            &&& ((x >> 1u8) & 1u8 == 1u8) == b1
            &&& ((x >> 2u8) & 1u8 == 1u8) == b2
            &&& ((x >> 3u8) & 1u8 == 1u8) == b3
            &&& ((x >> 4u8) & 1u8 == 1u8) == b4
            &&& ((x >> 5u8) & 1u8 == 1u8) == b5
            &&& ((x >> 6u8) & 1u8 == 1u8) == b6
            &&& ((x >> 7u8) & 1u8 == 1u8) == b7
        }),
{
}

proof fn lemma_same_bits_same_byte(a: u8, b: u8)
    by (bit_vector)
    requires
        (a >> 0u8) & 1u8 == (b >> 0u8) & 1u8,
        (a >> 1u8) & 1u8 == (b >> 1u8) & 1u8,
        (a >> 2u8) & 1u8 == (b >> 2u8) & 1u8,
        (a >> 3u8) & 1u8 == (b >> 3u8) & 1u8,
        (a >> 4u8) & 1u8 == (b >> 4u8) & 1u8,
        (a >> 5u8) & 1u8 == (b >> 5u8) & 1u8,
        (a >> 6u8) & 1u8 == (b >> 6u8) & 1u8,
        (a >> 7u8) & 1u8 == (b >> 7u8) & 1u8,
    ensures
        a == b,
{
}

proof fn lemma_bit_is_zero_or_one(a: u8, i: u8)
    by (bit_vector)
    requires
        i < 8,
    ensures
        (a >> i) & 1u8 == 0u8 || (a >> i) & 1u8 == 1u8,
{
}

/// Every bit of `byte_of` is the bit of the sequence at that place, and zero
/// past the end of the sequence.
pub proof fn lemma_byte_of_bit(bits: Seq<bool>, j: int)
    requires
        0 <= j < 8,
    ensures
        byte_bit(byte_of(bits), j) == (j < bits.len() && bits[j]),
{
    lemma_compose_bits(
        0 < bits.len() && bits[0],
        1 < bits.len() && bits[1],
        2 < bits.len() && bits[2],
        3 < bits.len() && bits[3],
        4 < bits.len() && bits[4],
        5 < bits.len() && bits[5],
        6 < bits.len() && bits[6],
        7 < bits.len() && bits[7],
    );
}

/// Two bytes with the same eight bits are equal.
pub proof fn lemma_byte_ext(a: u8, b: u8)
    requires
        forall|j: int| 0 <= j < 8 ==> byte_bit(a, j) == byte_bit(b, j),
    ensures
        a == b,
{
    assert forall|i: u8| i < 8 implies (a >> i) & 1u8 == (b >> i) & 1u8 by {
        lemma_bit_is_zero_or_one(a, i);
        lemma_bit_is_zero_or_one(b, i);
        assert(byte_bit(a, i as int) == byte_bit(b, i as int));
    }
    lemma_same_bits_same_byte(a, b);
}

/// `byte_of` reads the first eight bits only.
pub proof fn lemma_byte_of_prefix(a: Seq<bool>, b: Seq<bool>)
    requires
        forall|j: int| 0 <= j < 8 ==> (j < a.len() && a[j]) == (j < b.len() && b[j]),
    ensures
        byte_of(a) == byte_of(b),
{
    assert forall|j: int| 0 <= j < 8 implies byte_bit(byte_of(a), j) == byte_bit(byte_of(b), j) by {
        lemma_byte_of_bit(a, j);
        lemma_byte_of_bit(b, j);
    }
    lemma_byte_ext(byte_of(a), byte_of(b));
}

/// Unpacking the whole bytes of a bit sequence gives the sequence back, up
/// to its last whole byte.
pub proof fn lemma_unpack_pack(bits: Seq<bool>)
    ensures
        unpack(pack(bits)) == bits.take(8 * (bits.len() / 8) as int),
        unpack(pack(bits)) + tail(bits) == bits,
{
    let whole = 8 * (bits.len() / 8) as int;
    let u = unpack(pack(bits));
    assert(u.len() == whole);
    assert forall|k: int| 0 <= k < whole implies u[k] == bits[k] by {
        lemma_byte_of_bit(bits.skip(8 * (k / 8)), k % 8);
    }
    assert(u =~= bits.take(whole));
    assert(u + tail(bits) =~= bits);
}

/// Unpacking the padded bytes of a bit sequence gives the sequence back,
/// followed by the zero bits of the padding.
pub proof fn lemma_unpack_pack_padded(bits: Seq<bool>)
    ensures
        unpack(pack_padded(bits)) == bits + zeros(padding_len(bits.len())),
{
    let u = unpack(pack_padded(bits));
    let v = bits + zeros(padding_len(bits.len()));
    assert(u.len() == v.len());
    assert forall|k: int| 0 <= k < u.len() implies u[k] == v[k] by {
        lemma_byte_of_bit(bits.skip(8 * (k / 8)), k % 8);
    }
    assert(u =~= v);
}

/// Bits that follow a whole number of bytes are packed by themselves.
pub proof fn lemma_pack_concat(whole: Seq<bool>, more: Seq<bool>)
    requires
        whole.len() % 8 == 0,
    ensures
        pack(whole + more) == pack(whole) + pack(more),
        tail(whole + more) == tail(more),
{
    let p = pack(whole + more);
    let q = pack(whole) + pack(more);
    let n = whole.len() / 8;
    assert(p.len() == q.len());
    assert forall|k: int| 0 <= k < p.len() implies p[k] == q[k] by {
        if k < n {
            lemma_byte_of_prefix((whole + more).skip(8 * k), whole.skip(8 * k));
        } else {
            assert((whole + more).skip(8 * k) =~= more.skip(8 * (k - n)));
        }
    }
    assert(p =~= q);
    assert(tail(whole + more) =~= tail(more));
}

/// Packing goes on from the bits that were left over: the bytes of a
/// sequence and more bits are the bytes of the sequence, then the bytes of
/// its leftover bits and the further ones.
pub proof fn lemma_pack_continue(bits: Seq<bool>, more: Seq<bool>)
    ensures
        pack(bits + more) == pack(bits) + pack(tail(bits) + more),
        tail(bits + more) == tail(tail(bits) + more),
{
    let whole = bits.take(8 * (bits.len() / 8) as int);
    assert(bits =~= whole + tail(bits));
    assert(bits + more =~= whole + (tail(bits) + more));
    lemma_pack_concat(whole, tail(bits) + more);
    lemma_pack_concat(whole, tail(bits));
    assert(pack(tail(bits)) =~= Seq::<u8>::empty());
    assert(pack(whole) + pack(tail(bits)) =~= pack(whole));
}

/// The padded bytes of a sequence are its whole bytes, followed by one more
/// byte for the leftover bits where there are any.
pub proof fn lemma_pack_padded(bits: Seq<bool>)
    ensures
        pack_padded(bits) == if tail(bits).len() > 0 {
            pack(bits).push(byte_of(tail(bits)))
        } else {
            pack(bits)
        },
{
    let p = pack_padded(bits);
    let q = if tail(bits).len() > 0 {
        pack(bits).push(byte_of(tail(bits)))
    } else {
        pack(bits)
    };
    assert(p.len() == q.len());
    assert(p =~= q);
}

/// The bits of a byte sequence are the bits of its first byte, followed by
/// the bits of the rest.
pub proof fn lemma_unpack_first(bytes: Seq<u8>)
    requires
        bytes.len() > 0,
    ensures
        unpack(bytes) == bits_of_byte(bytes[0]) + unpack(bytes.drop_first()),
{
    let u = unpack(bytes);
    let v = bits_of_byte(bytes[0]) + unpack(bytes.drop_first());
    assert(u.len() == v.len());
    assert forall|k: int| 0 <= k < u.len() implies u[k] == v[k] by {
        if k >= 8 {
            assert((k - 8) / 8 == k / 8 - 1);
            assert((k - 8) % 8 == k % 8);
        }
    }
    assert(u =~= v);
}

} // verus!
