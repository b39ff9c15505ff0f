//! What the checksums are, apart from how they are computed.

use vstd::prelude::*;

use crate::checksum::{adler32, adler_from, crc32, crc_bit, crc_byte, crc_from};
use crate::steps::lemma_small_powers;
use crate::syntax::{plain_bytes, plain_number};

verus! {

/// The sum of the first `i` bytes.
pub open spec fn sum_of(data: Seq<u8>, i: int) -> int
    decreases i,
{
    if i <= 0 {
        0
    } else {
        sum_of(data, i - 1) + data[i - 1]
    }
}

/// The sum of the first `i` bytes, each as many times as there are bytes from it
/// on, of `n` in all.
pub open spec fn weighted_sum(data: Seq<u8>, n: int, i: int) -> int
    decreases i,
{
    if i <= 0 {
        0
    } else {
        weighted_sum(data, n, i - 1) + (n - (i - 1)) * data[i - 1]
    }
}

proof fn lemma_weighted_more(data: Seq<u8>, n: int, i: int)
    ensures
        weighted_sum(data, n + 1, i) == weighted_sum(data, n, i) + sum_of(data, i),
    decreases i,
{
    if i > 0 {
        lemma_weighted_more(data, n, i - 1);
        let (w, d) = (n - (i - 1), data[i - 1] as int);
        assert((w + 1) * d == w * d + d) by (nonlinear_arith);
        assert(n + 1 - (i - 1) == w + 1);
    }
}

proof fn lemma_sums_start(data: Seq<u8>, more: Seq<u8>, n: int, i: int)
    requires
        0 <= i <= data.len() <= more.len(),
        forall|k: int| 0 <= k < data.len() ==> more[k] == data[k],
    ensures
        sum_of(data, i) == sum_of(more, i),
        weighted_sum(data, n, i) == weighted_sum(more, n, i),
    decreases i,
{
    if i > 0 {
        lemma_sums_start(data, more, n, i - 1);
    }
}

proof fn lemma_adler(data: Seq<u8>)
    ensures
        ({
            let n = data.len() as int;
            let (a, b) = adler_from(1, 0, data);
            &&& a == (1 + sum_of(data, n)) % 65521
            &&& b == (n + weighted_sum(data, n, n)) % 65521
        }),
    decreases data.len(),
{
    let n = data.len() as int;
    if n > 0 {
        let fewer = data.drop_last();
        let m = n - 1;
        lemma_adler(fewer);
        lemma_sums_start(fewer, data, m, m);
        lemma_weighted_more(data, m, m);
        let x = data.last() as int;
        let (a, b) = adler_from(1, 0, fewer);
        let s = 1 + sum_of(data, m);
        let w = m + weighted_sum(data, m, m);
        assert((n - (n - 1)) * data[n - 1] == data[n - 1]) by (nonlinear_arith)
            requires
                n - (n - 1) == 1,
        ;
        assert((a + x) % 65521 == (s + x) % 65521);
        assert((b + (s + x) % 65521) % 65521 == (w + s + x) % 65521);
    }
}

/// The Adler-32 of some data is two sums modulo 65521, side by side: one more
/// than that of the bytes, and that of what this was at each byte.
pub proof fn adler32_is_two_sums(data: Seq<u8>)
    ensures
        ({
            let n = data.len() as int;
            let a = (1 + sum_of(data, n)) % 65521;
            let b = (n + weighted_sum(data, n, n)) % 65521;
            adler32(data) == 0x1_0000 * b + a
        }),
{
    lemma_adler(data);
}

/// A bit goes into the register of the division of polynomials that makes a
/// CRC-32, the coefficients of which are in reverse order.
pub open spec fn divided(c: u32, bit: bool) -> u32 {
    let out = (c % 2 == 1) != bit;
    if out {
        (c / 2) ^ 0xedb8_8320
    } else {
        c / 2
    }
}

/// So do many.
pub open spec fn all_divided(c: u32, bits: Seq<bool>) -> u32
    decreases bits.len(),
{
    if bits.len() == 0 {
        c
    } else {
        divided(all_divided(c, bits.drop_last()), bits.last())
    }
}

proof fn lemma_divided_more(c: u32, a: Seq<bool>, b: Seq<bool>)
    ensures
        all_divided(c, a + b) == all_divided(all_divided(c, a), b),
    decreases b.len(),
{
    if b.len() == 0 {
        assert(a + b =~= a);
    } else {
        lemma_divided_more(c, a, b.drop_last());
        assert((a + b).drop_last() =~= a + b.drop_last());
    }
}

/// One bit of a byte, out of turn.
proof fn lemma_one_bit(c: u32, w: u32)
    ensures
        crc_bit(c ^ w) == divided(c, w % 2 == 1) ^ (w / 2),
{
    assert((c ^ w) & 1 == 1 <==> ((c % 2 == 1) != (w % 2 == 1))) by (bit_vector);
    assert((c ^ w) & 1 == 0 || (c ^ w) & 1 == 1) by (bit_vector);
    assert((c ^ w) >> 1 == (c / 2) ^ (w / 2)) by (bit_vector);
    let (x, y) = (c / 2, w / 2);
    assert(0xedb8_8320u32 ^ (x ^ y) == (x ^ 0xedb8_8320u32) ^ y) by (bit_vector);
}

/// A byte goes in one bit at a time.
proof fn lemma_one_byte(c: u32, byte: u8)
    ensures
        crc_byte(c, byte) == all_divided(c, plain_number(byte as nat, 8)),
{
    let w0 = byte as u32;
    let (w1, w2, w3, w4) = (w0 / 2, w0 / 4, w0 / 8, w0 / 16);
    let (w5, w6, w7) = (w0 / 32, w0 / 64, w0 / 128);
    let bits = plain_number(byte as nat, 8);
    lemma_small_powers();
    assert(byte as nat / 1 == byte as nat);
    assert(bits =~= seq![
        w0 % 2 == 1,
        w1 % 2 == 1,
        w2 % 2 == 1,
        w3 % 2 == 1,
        w4 % 2 == 1,
        w5 % 2 == 1,
        w6 % 2 == 1,
        w7 % 2 == 1,
    ]);
    let c1 = divided(c, w0 % 2 == 1);
    let c2 = divided(c1, w1 % 2 == 1);
    let c3 = divided(c2, w2 % 2 == 1);
    let c4 = divided(c3, w3 % 2 == 1);
    let c5 = divided(c4, w4 % 2 == 1);
    let c6 = divided(c5, w5 % 2 == 1);
    let c7 = divided(c6, w6 % 2 == 1);
    let c8 = divided(c7, w7 % 2 == 1);
    lemma_one_bit(c, w0);
    lemma_one_bit(c1, w1);
    lemma_one_bit(c2, w2);
    lemma_one_bit(c3, w3);
    lemma_one_bit(c4, w4);
    lemma_one_bit(c5, w5);
    lemma_one_bit(c6, w6);
    lemma_one_bit(c7, w7);
    assert(w1 / 2 == w2 && w2 / 2 == w3 && w3 / 2 == w4 && w4 / 2 == w5 && w5 / 2 == w6 && w6 / 2 == w7 && w7
        / 2 == 0);
    assert(c8 ^ 0u32 == c8) by (bit_vector);
    lemma_eight(
        c,
        w0 % 2 == 1,
        w1 % 2 == 1,
        w2 % 2 == 1,
        w3 % 2 == 1,
        w4 % 2 == 1,
        w5 % 2 == 1,
        w6 % 2 == 1,
        w7 % 2 == 1,
    );
}

/// Eight bits, one after the other.
proof fn lemma_eight(c: u32, b0: bool, b1: bool, b2: bool, b3: bool, b4: bool, b5: bool, b6: bool, b7: bool)
    ensures
        all_divided(c, seq![b0, b1, b2, b3, b4, b5, b6, b7]) == divided(
            divided(
                divided(
                    divided(divided(divided(divided(divided(c, b0), b1), b2), b3), b4),
                    b5,
                ),
                b6,
            ),
            b7,
        ),
{
    let all = seq![b0, b1, b2, b3, b4, b5, b6, b7];
    assert(all.drop_last() =~= seq![b0, b1, b2, b3, b4, b5, b6]);
    assert(seq![b0, b1, b2, b3, b4, b5, b6].drop_last() =~= seq![b0, b1, b2, b3, b4, b5]);
    assert(seq![b0, b1, b2, b3, b4, b5].drop_last() =~= seq![b0, b1, b2, b3, b4]);
    assert(seq![b0, b1, b2, b3, b4].drop_last() =~= seq![b0, b1, b2, b3]);
    assert(seq![b0, b1, b2, b3].drop_last() =~= seq![b0, b1, b2]);
    assert(seq![b0, b1, b2].drop_last() =~= seq![b0, b1]);
    assert(seq![b0, b1].drop_last() =~= seq![b0]);
    assert(seq![b0].drop_last() =~= Seq::<bool>::empty());
    assert(all_divided(c, Seq::<bool>::empty()) == c);
    assert(all_divided(c, seq![b0]) == divided(c, b0));
    assert(all_divided(c, seq![b0, b1]) == divided(all_divided(c, seq![b0]), b1));
    assert(all_divided(c, seq![b0, b1, b2]) == divided(all_divided(c, seq![b0, b1]), b2));
    assert(all_divided(c, seq![b0, b1, b2, b3]) == divided(all_divided(c, seq![b0, b1, b2]), b3));
    assert(all_divided(c, seq![b0, b1, b2, b3, b4]) == divided(
        all_divided(c, seq![b0, b1, b2, b3]),
        b4,
    ));
    assert(all_divided(c, seq![b0, b1, b2, b3, b4, b5]) == divided(
        all_divided(c, seq![b0, b1, b2, b3, b4]),
        b5,
    ));
    assert(all_divided(c, seq![b0, b1, b2, b3, b4, b5, b6]) == divided(
        all_divided(c, seq![b0, b1, b2, b3, b4, b5]),
        b6,
    ));
}

proof fn lemma_crc(c: u32, data: Seq<u8>)
    ensures
        crc_from(c, data) == all_divided(c, plain_bytes(data)),
    decreases data.len(),
{
    if data.len() > 0 {
        let fewer = data.drop_last();
        lemma_crc(c, fewer);
        lemma_one_byte(crc_from(c, fewer), data.last());
        lemma_divided_more(c, plain_bytes(fewer), plain_number(data.last() as nat, 8));
    }
}

/// The CRC-32 of some data is what is left, inverted, of its bits once these went
/// through the register one by one, all of which was set at first.
pub proof fn crc32_is_a_remainder(data: Seq<u8>)
    ensures
        crc32(data) == !all_divided(0xffff_ffff, plain_bytes(data)),
{
    lemma_crc(0xffff_ffff, data);
}

} // verus!
