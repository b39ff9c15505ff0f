//! Bits in bytes, the way deflate packs them: the least significant bit of a
//! byte comes first.

use vstd::arithmetic::power2::{lemma2_to64, lemma_pow2_unfold, pow2};
use vstd::prelude::*;

verus! {

/// The bit of `data` at position `i`, the first bit being the least
/// significant one of the first byte.
pub open spec fn bit(data: Seq<u8>, i: int) -> nat {
    (data[i / 8] as nat / pow2((i % 8) as nat)) % 2
}

/// The number that the `n` bits from position `pos` stand for, the least
/// significant bit first: plain numbers are stored this way.
pub open spec fn number(data: Seq<u8>, pos: int, n: nat) -> nat
    decreases n,
{
    if n == 0 {
        0
    } else {
        bit(data, pos) + 2 * number(data, pos + 1, (n - 1) as nat)
    }
}

/// The number that the `n` bits from position `pos` stand for, the most
/// significant bit first: Huffman codes are stored this way.
pub open spec fn code(data: Seq<u8>, pos: int, n: nat) -> nat
    decreases n,
{
    if n == 0 {
        0
    } else {
        2 * code(data, pos, (n - 1) as nat) + bit(data, pos + n - 1)
    }
}

/// How many bits there are in `data`.
pub open spec fn bit_len(data: Seq<u8>) -> int {
    8 * data.len() as int
}

/// The first byte boundary at or after position `pos`.
pub open spec fn align(pos: int) -> int {
    (pos + 7) / 8 * 8
}

/// What `n` bits can tell is below two to the power `n`.
pub proof fn lemma_number_bound(data: Seq<u8>, pos: int, n: nat)
    ensures
        number(data, pos, n) < pow2(n),
    decreases n,
{
    if n == 0 {
        lemma2_to64();
    } else {
        lemma_number_bound(data, pos + 1, (n - 1) as nat);
        lemma_pow2_unfold(n);
    }
}

pub proof fn lemma_code_bound(data: Seq<u8>, pos: int, n: nat)
    ensures
        code(data, pos, n) < pow2(n),
    decreases n,
{
    if n == 0 {
        lemma2_to64();
    } else {
        lemma_code_bound(data, pos, (n - 1) as nat);
        lemma_pow2_unfold(n);
    }
}

/// A number is its low bits, then its high bits.
pub proof fn lemma_number_split(data: Seq<u8>, pos: int, a: nat, b: nat)
    ensures
        number(data, pos, a + b) == number(data, pos, a) + pow2(a) * number(data, pos + a, b),
    decreases a,
{
    if a == 0 {
        lemma2_to64();
        assert(pow2(0) * number(data, pos, b) == number(data, pos, b)) by (nonlinear_arith)
            requires
                pow2(0) == 1,
        ;
    } else {
        let a1 = (a - 1) as nat;
        lemma_number_split(data, pos + 1, a1, b);
        assert((a + b - 1) as nat == a1 + b);
        assert(pos + 1 + a1 == pos + a);
        lemma_pow2_unfold(a);
        let high = number(data, pos + a, b);
        assert(2 * (pow2(a1) * high) == pow2(a) * high) by (nonlinear_arith)
            requires
                pow2(a) == 2 * pow2(a1),
        ;
    }
}

/// Bits that are there do not depend on the bytes that follow.
pub proof fn lemma_number_prefix(data: Seq<u8>, more: Seq<u8>, pos: int, n: nat)
    requires
        0 <= pos,
        pos + n <= bit_len(data),
    ensures
        number(data + more, pos, n) == number(data, pos, n),
    decreases n,
{
    if n > 0 {
        lemma_number_prefix(data, more, pos + 1, (n - 1) as nat);
        assert((data + more)[pos / 8] == data[pos / 8]);
    }
}

pub proof fn lemma_code_prefix(data: Seq<u8>, more: Seq<u8>, pos: int, n: nat)
    requires
        0 <= pos,
        pos + n <= bit_len(data),
    ensures
        code(data + more, pos, n) == code(data, pos, n),
    decreases n,
{
    if n > 0 {
        lemma_code_prefix(data, more, pos, (n - 1) as nat);
        assert((data + more)[(pos + n - 1) / 8] == data[(pos + n - 1) / 8]);
    }
}

/// The bits of byte `i`, one by one.
pub proof fn lemma_bits_of_byte(data: Seq<u8>, i: int)
    ensures
        bit(data, 8 * i) == data[i] as nat % 2,
        bit(data, 8 * i + 1) == (data[i] as nat / 2) % 2,
        bit(data, 8 * i + 2) == (data[i] as nat / 4) % 2,
        bit(data, 8 * i + 3) == (data[i] as nat / 8) % 2,
        bit(data, 8 * i + 4) == (data[i] as nat / 16) % 2,
        bit(data, 8 * i + 5) == (data[i] as nat / 32) % 2,
        bit(data, 8 * i + 6) == (data[i] as nat / 64) % 2,
        bit(data, 8 * i + 7) == (data[i] as nat / 128) % 2,
{
    let p = 8 * i;
    assert(pow2(0) == 1 && pow2(1) == 2 && pow2(2) == 4 && pow2(3) == 8 && pow2(4) == 16
        && pow2(5) == 32 && pow2(6) == 64 && pow2(7) == 128) by {
        lemma2_to64();
    }
    let b = data[i] as nat;
    assert(b / 1 == b);
    assert(p / 8 == i && p % 8 == 0);
    assert((p + 1) / 8 == i && (p + 1) % 8 == 1);
    assert((p + 2) / 8 == i && (p + 2) % 8 == 2);
    assert((p + 3) / 8 == i && (p + 3) % 8 == 3);
    assert((p + 4) / 8 == i && (p + 4) % 8 == 4);
    assert((p + 5) / 8 == i && (p + 5) % 8 == 5);
    assert((p + 6) / 8 == i && (p + 6) % 8 == 6);
    assert((p + 7) / 8 == i && (p + 7) % 8 == 7);
}

/// A number is its lowest bit, then the others.
proof fn lemma_number_step(data: Seq<u8>, pos: int, n: nat)
    requires
        n > 0,
    ensures
        number(data, pos, n) == bit(data, pos) + 2 * number(data, pos + 1, (n - 1) as nat),
{
}

/// The eight bits on a byte boundary are that byte.
pub proof fn lemma_number_byte(data: Seq<u8>, i: int)
    requires
        0 <= i < data.len(),
    ensures
        number(data, 8 * i, 8) == data[i],
{
    let b = data[i] as nat;
    let p = 8 * i;
    lemma_bits_of_byte(data, i);
    assert(b / 128 == (b / 128) % 2);
    assert(b / 64 == (b / 64) % 2 + 2 * (b / 128));
    assert(b / 32 == (b / 32) % 2 + 2 * (b / 64));
    assert(b / 16 == (b / 16) % 2 + 2 * (b / 32));
    assert(b / 8 == (b / 8) % 2 + 2 * (b / 16));
    assert(b / 4 == (b / 4) % 2 + 2 * (b / 8));
    assert(b / 2 == (b / 2) % 2 + 2 * (b / 4));
    assert(b == b % 2 + 2 * (b / 2));
    lemma_number_step(data, p + 7, 1);
    lemma_number_step(data, p + 6, 2);
    lemma_number_step(data, p + 5, 3);
    lemma_number_step(data, p + 4, 4);
    lemma_number_step(data, p + 3, 5);
    lemma_number_step(data, p + 2, 6);
    lemma_number_step(data, p + 1, 7);
    lemma_number_step(data, p, 8);
    assert(number(data, p + 8, 0) == 0);
}

} // verus!
