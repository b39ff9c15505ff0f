//! The fixed Huffman codes (RFC 1951, section 3.2.6).

use vstd::arithmetic::power2::{lemma2_to64, pow2};
use vstd::prelude::*;

use crate::decoding::{fixed_dist_code, fixed_len_code};
use crate::huffman::{
    complete, count, first_code, lemma_count_step, lemma_unused_step, permitted, unused,
};

verus! {

/// Symbols from `from` to `to` that all have a code of `len` bits.
proof fn lemma_count_run(lengths: Seq<u8>, n: int, from: int, to: int, len: u8)
    requires
        0 <= from <= to <= lengths.len(),
        forall|s: int| from <= s < to ==> #[trigger] lengths[s] == len,
    ensures
        count(lengths.take(to), n) == count(lengths.take(from), n) + (if len == n {
            to - from
        } else {
            0
        }),
    decreases to - from,
{
    if from < to {
        lemma_count_run(lengths, n, from, to - 1, len);
        lemma_count_step(lengths, n, to - 1);
    }
}

/// How many codes there are of each length.
pub proof fn lemma_fixed_len_count(n: int, s: int)
    requires
        0 <= s <= 288,
    ensures
        count(fixed_len_code(), n) == (if n == 7 {
            24nat
        } else if n == 8 {
            152
        } else if n == 9 {
            112
        } else {
            0
        }),
        s <= 144 ==> count(fixed_len_code().take(s), n) == (if n == 8 {
            s
        } else {
            0
        }),
        144 <= s <= 256 ==> count(fixed_len_code().take(s), n) == (if n == 8 {
            144
        } else if n == 9 {
            s - 144
        } else {
            0
        }),
        256 <= s <= 280 ==> count(fixed_len_code().take(s), n) == (if n == 7 {
            s - 256
        } else if n == 8 {
            144int
        } else if n == 9 {
            112
        } else {
            0
        }),
        280 <= s ==> count(fixed_len_code().take(s), n) == (if n == 7 {
            24
        } else if n == 8 {
            144 + s - 280
        } else if n == 9 {
            112
        } else {
            0
        }),
    decreases 288 - s,
{
    let lengths = fixed_len_code();
    assert(count(lengths.take(0), n) == 0);
    lemma_count_run(lengths, n, 0, if s <= 144 { s } else { 144 }, 8);
    if s > 144 {
        lemma_count_run(lengths, n, 144, if s <= 256 { s } else { 256 }, 9);
    }
    if s > 256 {
        lemma_count_run(lengths, n, 256, if s <= 280 { s } else { 280 }, 7);
    }
    if s > 280 {
        lemma_count_run(lengths, n, 280, s, 8);
    }
    if s < 288 {
        lemma_fixed_len_count(n, 288);
    } else {
        assert(lengths.take(288) =~= lengths);
    }
}

pub proof fn lemma_fixed_dist_count(n: int, s: int)
    requires
        0 <= s <= 32,
    ensures
        count(fixed_dist_code(), n) == (if n == 5 {
            32nat
        } else {
            0
        }),
        count(fixed_dist_code().take(s), n) == (if n == 5 {
            s
        } else {
            0
        }),
    decreases 32 - s,
{
    let lengths = fixed_dist_code();
    assert(count(lengths.take(0), n) == 0);
    lemma_count_run(lengths, n, 0, s, 5);
    if s < 32 {
        lemma_fixed_dist_count(n, 32);
    } else {
        assert(lengths.take(32) =~= lengths);
    }
}

/// Unused codes, when no code has `n` bits or more.
proof fn lemma_unused_zero(lengths: Seq<u8>, from: nat, to: nat)
    requires
        1 <= from <= to,
        unused(lengths, from) == 0,
        forall|n: int| from < n <= to ==> #[trigger] count(lengths, n) == 0,
    ensures
        unused(lengths, to) == 0,
    decreases to - from,
{
    if from < to {
        lemma_unused_zero(lengths, from, (to - 1) as nat);
        lemma_unused_step(lengths, (to - 1) as nat);
        assert(count(lengths, to as int) == 0);
    }
}

/// The first code of each length.
pub proof fn lemma_fixed_first()
    ensures
        first_code(fixed_len_code(), 7) == 0,
        first_code(fixed_len_code(), 8) == 48,
        first_code(fixed_len_code(), 9) == 400,
        first_code(fixed_dist_code(), 5) == 0,
{
    let a = fixed_len_code();
    let b = fixed_dist_code();
    lemma_fixed_len_count(1, 0);
    lemma_fixed_len_count(2, 0);
    lemma_fixed_len_count(3, 0);
    lemma_fixed_len_count(4, 0);
    lemma_fixed_len_count(5, 0);
    lemma_fixed_len_count(6, 0);
    lemma_fixed_len_count(7, 0);
    lemma_fixed_len_count(8, 0);
    assert(first_code(a, 1) == 0);
    assert(first_code(a, 2) == 0);
    assert(first_code(a, 3) == 0);
    assert(first_code(a, 4) == 0);
    assert(first_code(a, 5) == 0);
    assert(first_code(a, 6) == 0);
    lemma_fixed_dist_count(1, 0);
    lemma_fixed_dist_count(2, 0);
    lemma_fixed_dist_count(3, 0);
    lemma_fixed_dist_count(4, 0);
    assert(first_code(b, 1) == 0);
    assert(first_code(b, 2) == 0);
    assert(first_code(b, 3) == 0);
    assert(first_code(b, 4) == 0);
}

/// Both codes are complete.
pub proof fn lemma_fixed_complete()
    ensures
        complete(fixed_len_code()),
        complete(fixed_dist_code()),
        permitted(fixed_len_code()),
        permitted(fixed_dist_code()),
{
    lemma_fixed_first();
    assert(pow2(9) == 512 && pow2(5) == 32) by {
        lemma2_to64();
    }
    lemma_fixed_len_count(9, 0);
    lemma_fixed_dist_count(5, 0);
    assert forall|n: int| 9 < n <= 15 implies #[trigger] count(fixed_len_code(), n) == 0 by {
        lemma_fixed_len_count(n, 0);
    }
    assert forall|n: int| 5 < n <= 15 implies #[trigger] count(fixed_dist_code(), n) == 0 by {
        lemma_fixed_dist_count(n, 0);
    }
    lemma_unused_zero(fixed_len_code(), 9, 15);
    lemma_unused_zero(fixed_dist_code(), 5, 15);
}

} // verus!
