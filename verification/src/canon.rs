//! Codes, as they are written and as they are read.

use vstd::arithmetic::div_mod::lemma_div_multiples_vanish;
use vstd::arithmetic::power2::{lemma2_to64, lemma_pow2_pos, lemma_pow2_unfold, pow2};
use vstd::prelude::*;

use crate::bits::{bit, bit_len, code, lemma_number_bound, number};
use crate::decoding::{
    dist_base, dist_extra, fixed_dist_code, fixed_len_code, length_base, length_extra, read,
};
use crate::encoding::{code_bits, number_bits};
use crate::huffman::{
    code_of, complete, count, first_code, has_code, lemma_code_range, lemma_count_step,
    lemma_symbol_bits, lemma_unused_negative, permitted, symbol_at, symbol_from, unused, Found,
};
use crate::spelling::{
    at, lemma_code_spelt, lemma_halved, lemma_number_spelt, lemma_symbol_there, spells,
};
use crate::steps::lemma_small_powers;
use crate::syntax::{
    codes, plain_bytes, plain_number, share, share_before, shows, symbol, usable, usual_dists,
    usual_lits, whole, DISTANCES, DISTANCE_BITS, LENGTHS, LENGTH_BITS,
};

verus! {

/// The bits of some bytes.
pub open spec fn bits_of(data: Seq<u8>) -> Seq<bool> {
    Seq::new(bit_len(data) as nat, |i: int| bit(data, i) == 1)
}

/// What bytes show, their bits hold.
pub proof fn lemma_shown(data: Seq<u8>, pos: int, part: Seq<bool>)
    requires
        shows(data, pos, part),
    ensures
        spells(data, bits_of(data)),
        at(bits_of(data), pos, part),
{
    let bits = bits_of(data);
    assert forall|i: int| 0 <= i < part.len() implies bits[pos + i] == #[trigger] part[i] by {}
}

pub proof fn lemma_shows_parts(data: Seq<u8>, pos: int, a: Seq<bool>, b: Seq<bool>)
    ensures
        shows(data, pos, a + b) == (shows(data, pos, a) && shows(data, pos + a.len(), b)),
{
    if shows(data, pos, a + b) {
        assert forall|i: int| 0 <= i < a.len() implies (bit(data, pos + i) == 1) == #[trigger] a[i] by {
            assert((a + b)[i] == a[i]);
        }
        assert forall|i: int| 0 <= i < b.len() implies (bit(data, pos + a.len() + i) == 1)
            == #[trigger] b[i] by {
            assert((a + b)[a.len() + i] == b[i]);
            assert(pos + (a.len() + i) == pos + a.len() + i);
        }
    }
    if shows(data, pos, a) && shows(data, pos + a.len(), b) {
        assert forall|i: int| 0 <= i < (a + b).len() implies (bit(data, pos + i) == 1) == #[trigger] (a
            + b)[i] by {
            if i < a.len() {
                assert((a + b)[i] == a[i]);
            } else {
                assert((a + b)[i] == b[i - a.len()]);
                assert(pos + a.len() + (i - a.len()) == pos + i);
            }
        }
    }
}

/// A number is read as it was written.
pub proof fn lemma_number_shown(data: Seq<u8>, pos: int, v: nat, n: nat)
    requires
        shows(data, pos, plain_number(v, n)),
        v < pow2(n),
    ensures
        number(data, pos, n) == v,
        read(data, pos, n) == Some(v),
        plain_number(v, n).len() == n,
{
    lemma_shown(data, pos, plain_number(v, n));
    assert(plain_number(v, n) =~= number_bits(v, n));
    lemma_number_spelt(data, bits_of(data), pos, v, n);
}

/// The share of the codewords of less than `n` bits, of the symbols before `i`.
spec fn space(lengths: Seq<u8>, n: int, i: int) -> nat
    decreases i,
{
    if i <= 0 {
        0
    } else {
        space(lengths, n, i - 1) + (if 0 < lengths[i - 1] < n {
            pow2((15 - lengths[i - 1]) as nat)
        } else {
            0
        })
    }
}

proof fn lemma_space_step(lengths: Seq<u8>, n: int, i: int)
    requires
        1 <= n <= 15,
        0 <= i <= lengths.len(),
    ensures
        space(lengths, n + 1, i) == space(lengths, n, i) + count(lengths.take(i), n) * pow2((15 - n) as nat),
    decreases i,
{
    let w = pow2((15 - n) as nat);
    if i > 0 {
        lemma_space_step(lengths, n, i - 1);
        lemma_count_step(lengths, n, i - 1);
        let c = count(lengths.take(i - 1), n);
        assert((c + 1) * w == c * w + w) by (nonlinear_arith);
    } else {
        assert(count(lengths.take(i), n) == 0);
        assert(0 * w == 0) by (nonlinear_arith);
    }
}

proof fn lemma_space_none(lengths: Seq<u8>, i: int)
    ensures
        space(lengths, 1, i) == 0,
    decreases i,
{
    if i > 0 {
        lemma_space_none(lengths, i - 1);
    }
}

/// The first codeword of `n` bits comes after all the shorter ones.
proof fn lemma_first_space(lengths: Seq<u8>, n: nat)
    requires
        1 <= n <= 15,
    ensures
        first_code(lengths, n) * pow2((15 - n) as nat) == space(lengths, n as int, lengths.len() as int),
    decreases n,
{
    let w = pow2((15 - n) as nat);
    if n == 1 {
        lemma_space_none(lengths, lengths.len() as int);
        assert(0 * w == 0) by (nonlinear_arith);
    } else {
        let m = (n - 1) as nat;
        lemma_first_space(lengths, m);
        lemma_space_step(lengths, m as int, lengths.len() as int);
        assert(lengths.take(lengths.len() as int) =~= lengths);
        lemma_pow2_unfold((15 - m) as nat);
        let (f, c) = (first_code(lengths, m), count(lengths, m as int));
        assert((15 - m - 1) as nat == (15 - n) as nat);
        assert(2 * (f + c) * w == f * (2 * w) + c * (2 * w)) by (nonlinear_arith);
    }
}

proof fn lemma_share_space(lengths: Seq<u8>, i: int)
    requires
        0 <= i <= lengths.len(),
        forall|s: int| 0 <= s < lengths.len() ==> #[trigger] lengths[s] <= 15,
    ensures
        share(lengths, i) == space(lengths, 16, i),
    decreases i,
{
    if i > 0 {
        lemma_share_space(lengths, i - 1);
        assert(lengths[i - 1] <= 15);
    }
}

proof fn lemma_share_before_space(lengths: Seq<u8>, s: int, i: int)
    requires
        0 <= s < lengths.len(),
        0 <= i <= lengths.len(),
        1 <= lengths[s] <= 15,
    ensures
        ({
            let n = lengths[s] as int;
            let j = if i < s {
                i
            } else {
                s
            };
            share_before(lengths, s, i) == space(lengths, n, i) + count(lengths.take(j), n) * pow2(
                (15 - n) as nat,
            )
        }),
    decreases i,
{
    let n = lengths[s] as int;
    let w = pow2((15 - n) as nat);
    if i > 0 {
        lemma_share_before_space(lengths, s, i - 1);
        if i <= s {
            lemma_count_step(lengths, n, i - 1);
            let c = count(lengths.take(i - 1), n);
            assert((c + 1) * w == c * w + w) by (nonlinear_arith);
        }
    } else {
        assert(count(lengths.take(0), n) == 0);
        assert(0 * w == 0) by (nonlinear_arith);
    }
}

/// What a code leaves unused is what is not its share.
pub proof fn lemma_share_unused(lengths: Seq<u8>)
    requires
        forall|s: int| 0 <= s < lengths.len() ==> #[trigger] lengths[s] <= 15,
    ensures
        share(lengths, lengths.len() as int) == 0x8000 - unused(lengths, 15),
        whole(lengths) == complete(lengths),
        usable(lengths) == permitted(lengths),
{
    lemma2_to64();
    lemma_share_space(lengths, lengths.len() as int);
    lemma_space_step(lengths, 15, lengths.len() as int);
    assert(lengths.take(lengths.len() as int) =~= lengths);
    lemma_first_space(lengths, 15);
    let (f, c) = (first_code(lengths, 15), count(lengths, 15));
    let w = pow2((15 - 15) as nat);
    assert(f * w == f && c * w == c) by (nonlinear_arith)
        requires
            w == 1,
    ;
    if forall|s: int| 0 <= s < lengths.len() ==> #[trigger] lengths[s] <= 1 {
        lemma_short_share(lengths, lengths.len() as int);
    }
}

proof fn lemma_short_share(lengths: Seq<u8>, i: int)
    requires
        0 <= i <= lengths.len(),
        forall|s: int| 0 <= s < lengths.len() ==> #[trigger] lengths[s] <= 1,
    ensures
        share(lengths, i) == 0x4000 * count(lengths.take(i), 1),
    decreases i,
{
    lemma2_to64();
    if i > 0 {
        lemma_short_share(lengths, i - 1);
        lemma_count_step(lengths, 1, i - 1);
        assert(lengths[i - 1] <= 1);
    }
}

/// A symbol is written with its code.
pub proof fn lemma_symbol_code(lengths: Seq<u8>, s: int)
    requires
        codes(lengths, s),
        lengths[s] <= 15,
    ensures
        symbol(lengths, s) == code_bits(code_of(lengths, s), lengths[s] as nat),
{
    let n = lengths[s] as nat;
    let w = pow2((15 - n) as nat);
    lemma_share_before_space(lengths, s, lengths.len() as int);
    lemma_first_space(lengths, n);
    let (f, c) = (first_code(lengths, n), count(lengths.take(s), n as int));
    lemma_pow2_pos((15 - n) as nat);
    assert(f * w + c * w == w * (f + c)) by (nonlinear_arith);
    lemma_div_multiples_vanish((f + c) as int, w as int);
    assert(symbol(lengths, s) =~= code_bits(code_of(lengths, s), n));
}

/// A codeword starts with none of the shorter ones.
proof fn lemma_past_shorter(lengths: Seq<u8>, data: Seq<u8>, pos: int, j: nat, n: nat)
    requires
        1 <= j <= n,
        code(data, pos, n) >= first_code(lengths, n),
    ensures
        code(data, pos, j) >= first_code(lengths, j),
        j < n ==> code(data, pos, j) >= first_code(lengths, j) + count(lengths, j as int),
    decreases n - j,
{
    if j < n {
        lemma_past_shorter(lengths, data, pos, j + 1, n);
        assert(code(data, pos, j + 1) == 2 * code(data, pos, j) + bit(data, pos + j));
        assert(bit(data, pos + j) <= 1);
    }
}

/// A symbol is read as it was written.
pub proof fn lemma_symbol_shown(lengths: Seq<u8>, data: Seq<u8>, pos: int, s: int)
    requires
        codes(lengths, s),
        lengths[s] <= 15,
        unused(lengths, 15) >= 0,
        shows(data, pos, symbol(lengths, s)),
    ensures
        symbol_at(lengths, data, pos) == Found::Symbol(s, lengths[s] as nat),
        symbol(lengths, s).len() == lengths[s],
{
    let n = lengths[s] as nat;
    let c = code_of(lengths, s);
    lemma_symbol_code(lengths, s);
    lemma_shown(data, pos, symbol(lengths, s));
    assert(has_code(lengths, s, n, c));
    lemma_code_range(lengths, n, c);
    if unused(lengths, n) < 0 {
        lemma_unused_negative(lengths, n, 15);
    }
    lemma_code_spelt(data, bits_of(data), pos, c, n);
    assert forall|j: nat| 1 <= j < n implies !(exists|t: int| #[trigger]
        has_code(lengths, t, j, #[trigger] code(data, pos, j))) by {
        lemma_past_shorter(lengths, data, pos, j, n);
        lemma_code_range(lengths, j, code(data, pos, j));
    }
    lemma_symbol_there(lengths, data, pos, s);
}

/// What the tables say of lengths.
pub proof fn lemma_length_table(s: int)
    requires
        0 <= s < 29,
    ensures
        length_base(s) == LENGTHS@[s],
        length_extra(s) == LENGTH_BITS@[s],
{
    lemma_small_powers();
    let (r, w) = (s % 4, pow2(length_extra(s)));
    assert((4 + r) * w == 4 * w + r * w) by (nonlinear_arith);
    assert(r == 0 || r == 1 || r == 2 || r == 3);
    assert(0 * w == 0 && 1 * w == w) by (nonlinear_arith);
    if s < 10 {
        assert(s == 0 || s == 1 || s == 2 || s == 3 || s == 4 || s == 5 || s == 6 || s == 7 || s == 8
            || s == 9);
    } else if s < 20 {
        assert(s == 10 || s == 11 || s == 12 || s == 13 || s == 14 || s == 15 || s == 16 || s == 17
            || s == 18 || s == 19);
    } else {
        assert(s == 20 || s == 21 || s == 22 || s == 23 || s == 24 || s == 25 || s == 26 || s == 27
            || s == 28);
    }
}

/// What the tables say of distances.
pub proof fn lemma_distance_table(s: int)
    requires
        0 <= s < 30,
    ensures
        dist_base(s) == DISTANCES@[s],
        dist_extra(s) == DISTANCE_BITS@[s],
{
    lemma_small_powers();
    let w = pow2(dist_extra(s));
    if s % 2 == 0 {
        assert((2 + s % 2) * w == 2 * w) by (nonlinear_arith)
            requires
                s % 2 == 0,
        ;
    } else {
        assert((2 + s % 2) * w == 3 * w) by (nonlinear_arith)
            requires
                s % 2 == 1,
        ;
    }
    if s < 10 {
        assert(s == 0 || s == 1 || s == 2 || s == 3 || s == 4 || s == 5 || s == 6 || s == 7 || s == 8
            || s == 9);
    } else if s < 20 {
        assert(s == 10 || s == 11 || s == 12 || s == 13 || s == 14 || s == 15 || s == 16 || s == 17
            || s == 18 || s == 19);
    } else {
        assert(s == 20 || s == 21 || s == 22 || s == 23 || s == 24 || s == 25 || s == 26 || s == 27
            || s == 28 || s == 29);
    }
}

/// The usual codes are the fixed ones.
pub proof fn lemma_usual()
    ensures
        usual_lits() == fixed_len_code(),
        usual_dists() == fixed_dist_code(),
{
    assert(usual_lits() =~= fixed_len_code());
    assert(usual_dists() =~= fixed_dist_code());
}

/// Bytes are read as they were written.
pub proof fn lemma_bytes_shown(data: Seq<u8>, pos: int, bytes: Seq<u8>)
    requires
        shows(data, pos, plain_bytes(bytes)),
    ensures
        plain_bytes(bytes).len() == 8 * bytes.len(),
        forall|i: int|
            0 <= i < bytes.len() ==> #[trigger] read(data, pos + 8 * i, 8) == Some(bytes[i] as nat),
    decreases bytes.len(),
{
    if bytes.len() > 0 {
        let shorter = bytes.drop_last();
        lemma_shows_parts(data, pos, plain_bytes(shorter), plain_number(bytes.last() as nat, 8));
        lemma_bytes_shown(data, pos, shorter);
        lemma_small_powers();
        lemma_number_shown(data, pos + 8 * shorter.len(), bytes.last() as nat, 8);
        assert forall|i: int| 0 <= i < bytes.len() implies #[trigger] read(data, pos + 8 * i, 8) == Some(
            bytes[i] as nat,
        ) by {
            if i < shorter.len() {
                assert(shorter[i] == bytes[i]);
            }
        }
    }
}

/// The bits of a number that was read are those that are there.
proof fn lemma_number_bit(data: Seq<u8>, pos: int, n: nat, i: nat)
    requires
        i < n,
    ensures
        (number(data, pos, n) / pow2(i)) % 2 == bit(data, pos + i),
    decreases i,
{
    assert(pow2(0) == 1) by {
        lemma2_to64();
    }
    let v = number(data, pos, n);
    let rest = number(data, pos + 1, (n - 1) as nat);
    assert(v == bit(data, pos) + 2 * rest);
    assert(bit(data, pos) <= 1);
    if i == 0 {
        assert(v / 1 == v);
    } else {
        let m = (i - 1) as nat;
        lemma_number_bit(data, pos + 1, (n - 1) as nat, m);
        assert(v / 2 == rest);
        lemma_halved(v, m);
        assert(pos + 1 + m == pos + i);
    }
}

/// A number that is read is there.
pub proof fn lemma_number_there(data: Seq<u8>, pos: int, n: nat)
    requires
        0 <= pos,
        read(data, pos, n) is Some,
    ensures
        shows(data, pos, plain_number(read(data, pos, n)->0, n)),
        plain_number(read(data, pos, n)->0, n).len() == n,
        read(data, pos, n)->0 < pow2(n),
{
    let part = plain_number(read(data, pos, n)->0, n);
    lemma_number_bound(data, pos, n);
    assert forall|i: int| 0 <= i < part.len() implies (bit(data, pos + i) == 1) == #[trigger] part[i] by {
        lemma_number_bit(data, pos, n, i as nat);
    }
}

proof fn lemma_code_bit(data: Seq<u8>, pos: int, n: nat, i: nat)
    requires
        i < n,
    ensures
        (code(data, pos, n) / pow2((n - 1 - i) as nat)) % 2 == bit(data, pos + i),
    decreases n,
{
    assert(pow2(0) == 1) by {
        lemma2_to64();
    }
    let c = code(data, pos, n);
    let m = (n - 1) as nat;
    assert(c == 2 * code(data, pos, m) + bit(data, pos + n - 1));
    assert(bit(data, pos + n - 1) <= 1);
    if i == m {
        assert(c / 1 == c);
    } else {
        lemma_code_bit(data, pos, m, i);
        assert(c / 2 == code(data, pos, m));
        lemma_halved(c, (m - 1 - i) as nat);
    }
}

proof fn lemma_symbol_from(lengths: Seq<u8>, data: Seq<u8>, pos: int, n: nat)
    ensures
        symbol_from(lengths, data, pos, n) matches Found::Symbol(s, k) ==> has_code(
            lengths,
            s,
            k,
            code(data, pos, k),
        ),
    decreases 16 - n,
{
    if n <= 15 && pos + n <= bit_len(data) {
        if !(exists|s: int| has_code(lengths, s, n, code(data, pos, n))) {
            lemma_symbol_from(lengths, data, pos, n + 1);
        }
    }
}

/// A symbol that is read is there.
pub proof fn lemma_symbol_is_there(lengths: Seq<u8>, data: Seq<u8>, pos: int)
    requires
        0 <= pos,
        symbol_at(lengths, data, pos) is Symbol,
    ensures
        ({
            let s = symbol_at(lengths, data, pos)->Symbol_0;
            let n = symbol_at(lengths, data, pos)->Symbol_1;
            &&& codes(lengths, s)
            &&& lengths[s] == n
            &&& 1 <= n <= 15
            &&& shows(data, pos, symbol(lengths, s))
            &&& symbol(lengths, s).len() == n
        }),
{
    let s = symbol_at(lengths, data, pos)->Symbol_0;
    let n = symbol_at(lengths, data, pos)->Symbol_1;
    lemma_symbol_bits(lengths, data, pos, 1);
    lemma_symbol_from(lengths, data, pos, 1);
    lemma_symbol_code(lengths, s);
    let part = symbol(lengths, s);
    assert forall|i: int| 0 <= i < part.len() implies (bit(data, pos + i) == 1) == #[trigger] part[i] by {
        lemma_code_bit(data, pos, n, i as nat);
    }
}

} // verus!
