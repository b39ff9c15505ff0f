//! What reading some bytes gives, given the bits they were made of.

use vstd::arithmetic::div_mod::lemma_div_denominator;
use vstd::arithmetic::power2::{lemma2_to64, lemma_pow2_pos, lemma_pow2_unfold, pow2};
use vstd::prelude::*;

use crate::bits::{bit, bit_len, code, number};
use crate::decoding::{fixed_dist_code, fixed_len_code};
use crate::encoding::{bits_value, code_bits, number_bits, packed, symbol_bits};
use crate::fixed::{lemma_fixed_dist_count, lemma_fixed_first, lemma_fixed_len_count};
use crate::huffman::{code_of, has_code, lemma_code_range, symbol_at, symbol_from, Found};

verus! {

/// Whether `data` starts with `bits`.
pub open spec fn spells(data: Seq<u8>, bits: Seq<bool>) -> bool {
    &&& bits.len() <= bit_len(data)
    &&& forall|i: int|
        #![trigger bits[i]]
        #![trigger bit(data, i)]
        0 <= i < bits.len() ==> bit(data, i) == (if bits[i] {
            1nat
        } else {
            0nat
        })
}

/// Whether `part` is what `bits` holds at `pos`.
pub open spec fn at(bits: Seq<bool>, pos: int, part: Seq<bool>) -> bool {
    &&& 0 <= pos
    &&& pos + part.len() <= bits.len()
    &&& forall|i: int|
        #![trigger part[i]]
        #![trigger bits[pos + i]]
        0 <= i < part.len() ==> bits[pos + i] == part[i]
}

/// What holds a part holds the parts of that part.
pub proof fn lemma_at_parts(bits: Seq<bool>, pos: int, a: Seq<bool>, b: Seq<bool>)
    requires
        at(bits, pos, a + b),
    ensures
        at(bits, pos, a),
        at(bits, pos + a.len(), b),
{
    assert forall|i: int| 0 <= i < a.len() implies bits[pos + i] == #[trigger] a[i] by {
        assert((a + b)[i] == a[i]);
    }
    assert forall|i: int| 0 <= i < b.len() implies bits[pos + a.len() + i] == #[trigger] b[i] by {
        assert((a + b)[a.len() + i] == b[i]);
        assert(bits[pos + (a.len() + i)] == (a + b)[a.len() + i]);
    }
}

pub proof fn lemma_bits_value_bound(bits: Seq<bool>)
    ensures
        bits_value(bits) < pow2(bits.len()),
    decreases bits.len(),
{
    if bits.len() == 0 {
        lemma2_to64();
    } else {
        lemma_bits_value_bound(bits.skip(1));
        lemma_pow2_unfold(bits.len());
    }
}

/// Halving a number once then more is halving it one time more.
pub proof fn lemma_halved(v: nat, i: nat)
    ensures
        (v / 2) / pow2(i) == v / pow2(i + 1),
{
    lemma_pow2_pos(i);
    lemma_pow2_unfold(i + 1);
    lemma_div_denominator(v as int, 2, pow2(i) as int);
}

/// The bits of a number are those that it was made of.
pub proof fn lemma_bits_value_bit(bits: Seq<bool>, j: int)
    requires
        0 <= j < bits.len(),
    ensures
        (bits_value(bits) / pow2(j as nat)) % 2 == (if bits[j] {
            1nat
        } else {
            0nat
        }),
    decreases j,
{
    assert(pow2(0) == 1) by {
        lemma2_to64();
    }
    let v = bits_value(bits);
    if j == 0 {
        assert(v / 1 == v);
    } else {
        lemma_bits_value_bit(bits.skip(1), j - 1);
        lemma_halved(v, (j - 1) as nat);
        assert(v / 2 == bits_value(bits.skip(1)));
    }
}

/// Bytes made of bits start with them.
pub proof fn lemma_packed(bits: Seq<bool>)
    requires
        bits.len() % 8 == 0,
    ensures
        spells(packed(bits), bits),
        bit_len(packed(bits)) == bits.len(),
{
    let data = packed(bits);
    assert forall|i: int| 0 <= i < bits.len() implies #[trigger] bit(data, i) == (if bits[i] {
        1nat
    } else {
        0nat
    }) by {
        let k = i / 8;
        let byte = bits.subrange(8 * k, 8 * k + 8);
        lemma_bits_value_bound(byte);
        assert(pow2(8) == 256) by {
            lemma2_to64();
        }
        assert(data[k] == bits_value(byte));
        lemma_bits_value_bit(byte, i % 8);
        assert(byte[i % 8] == bits[i]);
    }
}

/// A number is read as it was written.
pub proof fn lemma_number_spelt(data: Seq<u8>, bits: Seq<bool>, pos: int, v: nat, n: nat)
    requires
        spells(data, bits),
        at(bits, pos, number_bits(v, n)),
        v < pow2(n),
    ensures
        number(data, pos, n) == v,
        pos + n <= bit_len(data),
    decreases n,
{
    assert(pow2(0) == 1) by {
        lemma2_to64();
    }
    let part = number_bits(v, n);
    assert(part.len() == n);
    if n > 0 {
        let m = (n - 1) as nat;
        let rest = number_bits(v / 2, m);
        lemma_pow2_unfold(n);
        assert(v / 1 == v);
        assert(at(bits, pos + 1, rest)) by {
            assert forall|i: int| 0 <= i < rest.len() implies bits[pos + 1 + i] == #[trigger] rest[i] by {
                lemma_halved(v, i as nat);
                assert(part[i + 1] == rest[i]);
                assert(bits[pos + (i + 1)] == part[i + 1]);
            }
        }
        assert(part[0] == (v % 2 == 1));
        assert(bits[pos + 0] == part[0]);
        assert(bit(data, pos) == v % 2);
        lemma_number_spelt(data, bits, pos + 1, v / 2, m);
    }
}

/// A code is read as it was written.
pub proof fn lemma_code_spelt(data: Seq<u8>, bits: Seq<bool>, pos: int, c: nat, n: nat)
    requires
        spells(data, bits),
        at(bits, pos, code_bits(c, n)),
        c < pow2(n),
    ensures
        code(data, pos, n) == c,
        pos + n <= bit_len(data),
    decreases n,
{
    assert(pow2(0) == 1) by {
        lemma2_to64();
    }
    let part = code_bits(c, n);
    assert(part.len() == n);
    if n > 0 {
        let m = (n - 1) as nat;
        let shorter = code_bits(c / 2, m);
        lemma_pow2_unfold(n);
        assert(c / 1 == c);
        assert(at(bits, pos, shorter)) by {
            assert forall|i: int| 0 <= i < shorter.len() implies bits[pos + i] == #[trigger] shorter[i] by {
                lemma_halved(c, (m - 1 - i) as nat);
                assert((m - 1 - i) as nat + 1 == (n - 1 - i) as nat);
                assert(part[i] == shorter[i]);
                assert(bits[pos + i] == part[i]);
            }
        }
        assert(part[n - 1] == (c % 2 == 1));
        assert(bits[pos + (n - 1)] == part[n - 1]);
        assert(bit(data, pos + n - 1) == c % 2);
        lemma_code_spelt(data, bits, pos, c / 2, m);
    }
}

/// No symbol has a code that is shorter than `n` bits, as far as what comes at
/// `pos` goes.
proof fn lemma_none_shorter(lengths: Seq<u8>, data: Seq<u8>, pos: int, k: nat, n: nat)
    requires
        k <= n <= 15,
        pos + n <= bit_len(data),
        forall|j: nat|
            k <= j < n ==> !(exists|s: int| #[trigger] has_code(lengths, s, j, #[trigger] code(data, pos, j))),
    ensures
        symbol_from(lengths, data, pos, k) == symbol_from(lengths, data, pos, n),
    decreases n - k,
{
    if k < n {
        assert(!(exists|s: int| has_code(lengths, s, k, code(data, pos, k))));
        lemma_none_shorter(lengths, data, pos, k + 1, n);
    }
}

/// A symbol whose code is there, with no shorter code in the way, is read.
pub proof fn lemma_symbol_there(lengths: Seq<u8>, data: Seq<u8>, pos: int, s: int)
    requires
        0 <= s < lengths.len(),
        1 <= lengths[s] <= 15,
        pos + lengths[s] <= bit_len(data),
        code(data, pos, lengths[s] as nat) == code_of(lengths, s),
        forall|j: nat|
            1 <= j < lengths[s] ==> !(exists|t: int| #[trigger]
                has_code(lengths, t, j, #[trigger] code(data, pos, j))),
    ensures
        symbol_at(lengths, data, pos) == Found::Symbol(s, lengths[s] as nat),
{
    let n = lengths[s] as nat;
    let c = code(data, pos, n);
    lemma_none_shorter(lengths, data, pos, 1, n);
    lemma_code_range(lengths, n, c);
    assert(has_code(lengths, s, n, c));
    assert(has_code(lengths, choose|t: int| has_code(lengths, t, n, c), n, c));
}

/// The code of a symbol of the fixed literal/length code.
pub open spec fn fixed_len_codeword(s: int) -> int {
    if s < 144 {
        48 + s
    } else if s < 256 {
        400 + (s - 144)
    } else if s < 280 {
        s - 256
    } else {
        192 + (s - 280)
    }
}

pub proof fn lemma_fixed_len_codeword(s: int)
    requires
        0 <= s < 288,
    ensures
        code_of(fixed_len_code(), s) == fixed_len_codeword(s),
        fixed_len_codeword(s) < pow2(fixed_len_code()[s] as nat),
{
    let n = fixed_len_code()[s] as int;
    lemma_fixed_first();
    lemma_fixed_len_count(n, s);
    assert(pow2(7) == 128 && pow2(8) == 256 && pow2(9) == 512) by {
        lemma2_to64();
    }
}

pub proof fn lemma_fixed_dist_codeword(s: int)
    requires
        0 <= s < 32,
    ensures
        code_of(fixed_dist_code(), s) == s,
        s < pow2(5),
{
    lemma_fixed_first();
    lemma_fixed_dist_count(5, s);
    assert(pow2(5) == 32) by {
        lemma2_to64();
    }
}

/// A literal/length symbol is read as it was written.
pub proof fn lemma_len_symbol_spelt(data: Seq<u8>, bits: Seq<bool>, pos: int, s: int)
    requires
        spells(data, bits),
        0 <= s < 288,
        at(bits, pos, symbol_bits(fixed_len_code(), s)),
    ensures
        symbol_at(fixed_len_code(), data, pos) == Found::Symbol(s, fixed_len_code()[s] as nat),
        pos + fixed_len_code()[s] <= bit_len(data),
{
    let lengths = fixed_len_code();
    let n = lengths[s] as nat;
    lemma_fixed_len_codeword(s);
    lemma_code_spelt(data, bits, pos, code_of(lengths, s), n);
    lemma_fixed_first();
    let c = code(data, pos, n);
    assert forall|j: nat| 1 <= j < n implies !(exists|t: int| #[trigger]
        has_code(lengths, t, j, #[trigger] code(data, pos, j))) by {
        lemma_code_range(lengths, j, code(data, pos, j));
        lemma_fixed_len_count(j as int, 0);
        if n == 9 {
            assert(c == 2 * code(data, pos, 8) + bit(data, pos + 8));
            assert(code(data, pos, 8) == 2 * code(data, pos, 7) + bit(data, pos + 7));
        } else if n == 8 {
            assert(c == 2 * code(data, pos, 7) + bit(data, pos + 7));
        }
    }
    lemma_symbol_there(lengths, data, pos, s);
}

/// A distance symbol is read as it was written.
pub proof fn lemma_dist_symbol_spelt(data: Seq<u8>, bits: Seq<bool>, pos: int, s: int)
    requires
        spells(data, bits),
        0 <= s < 32,
        at(bits, pos, symbol_bits(fixed_dist_code(), s)),
    ensures
        symbol_at(fixed_dist_code(), data, pos) == Found::Symbol(s, 5),
        pos + 5 <= bit_len(data),
{
    let lengths = fixed_dist_code();
    lemma_fixed_dist_codeword(s);
    lemma_code_spelt(data, bits, pos, code_of(lengths, s), 5);
    assert forall|j: nat| 1 <= j < 5 implies !(exists|t: int| #[trigger]
        has_code(lengths, t, j, #[trigger] code(data, pos, j))) by {
        lemma_code_range(lengths, j, code(data, pos, j));
        lemma_fixed_dist_count(j as int, 0);
    }
    lemma_symbol_there(lengths, data, pos, s);
}

} // verus!
