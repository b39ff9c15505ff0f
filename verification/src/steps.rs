//! What holds of the steps of decoding, and of any number of them.

use vstd::arithmetic::power2::{lemma2_to64, pow2};
use vstd::prelude::*;

use crate::bits::{bit_len, lemma_number_bound, lemma_number_prefix};
use crate::decoding::{
    advance, bits_left, dist_base, dist_extra, fits, halted, in_place, lemma_at_block,
    lemma_at_checksum, lemma_at_code_lengths, lemma_at_distance, lemma_at_end, lemma_at_fields,
    lemma_at_length, lemma_at_lengths, lemma_at_member, lemma_at_next, lemma_at_size,
    lemma_at_skip, lemma_at_start, lemma_at_stored, lemma_at_stored_len, lemma_step_shrinks,
    length_base, length_extra, orderly, placed, rank, read, step, Progress, Setup, State,
};
use crate::fixed::lemma_fixed_complete;
use crate::huffman::{lemma_symbol_bits, lemma_symbol_prefix, symbol_at, Found};
use crate::output::lemma_copied;

verus! {

/// What can be read does not depend on the bytes that follow.
pub proof fn lemma_read_local(data: Seq<u8>, more: Seq<u8>, pos: int, n: nat)
    requires
        0 <= pos,
        read(data, pos, n) is Some,
    ensures
        read(data + more, pos, n) == read(data, pos, n),
{
    lemma_number_prefix(data, more, pos, n);
}

/// A step that can be taken is the same whatever follows.
pub proof fn lemma_step_local(setup: Setup, data: Seq<u8>, more: Seq<u8>, p: Progress)
    requires
        0 <= p.pos,
        step(setup, data, p) is Some,
    ensures
        step(setup, data + more, p) == step(setup, data, p),
{
    let longer = data + more;
    assert forall|pos: int, n: nat| 0 <= pos && read(data, pos, n) is Some implies #[trigger] read(
        longer,
        pos,
        n,
    ) == read(data, pos, n) by {
        lemma_read_local(data, more, pos, n);
    }
    match p.state {
        State::Start => {
            lemma_at_start(setup, p);
        },
        State::Member => {
            lemma_at_member(setup, p);
        },
        State::Skip(_, _) => {
            lemma_at_skip(setup, p);
        },
        State::Fields(_) => {
            lemma_at_fields(setup, p);
        },
        State::Block => {
            lemma_at_block(setup, p);
        },
        State::StoredLen => {
            lemma_at_stored_len(setup, p);
        },
        State::Stored(_) => {
            lemma_at_stored(setup, p);
        },
        State::CodeLengths(_) => {
            lemma_at_code_lengths(setup, p);
        },
        State::Lengths(_) => {
            lemma_at_lengths(setup, p);
            if p.lengths.len() < p.syms {
                lemma_symbol_prefix(p.len_code, data, more, p.pos, 1);
            }
        },
        State::Length => {
            lemma_at_length(setup, p);
            lemma_symbol_prefix(p.len_code, data, more, p.pos, 1);
        },
        State::Distance(_) => {
            lemma_at_distance(setup, p);
            lemma_symbol_prefix(p.dist_code, data, more, p.pos, 1);
        },
        State::Checksum => {
            lemma_at_checksum(setup, p);
        },
        State::Size(_) => {
            lemma_at_size(setup, p);
        },
        State::Next => {
            lemma_at_next(setup, p);
        },
        _ => {
            lemma_at_end(setup, p);
        },
    }
}

proof fn lemma_lengths_onward(setup: Setup, data: Seq<u8>, p: Progress)
    requires
        0 <= p.pos,
        p.state is Lengths,
        step(setup, data, p) is Some,
    ensures
        p.pos <= step(setup, data, p)->0.pos,
        p.pos <= bit_len(data) ==> step(setup, data, p)->0.pos <= bit_len(data),
{
    lemma_at_lengths(setup, p);
    lemma_symbol_bits(p.len_code, data, p.pos, 1);
}

proof fn lemma_length_onward(setup: Setup, data: Seq<u8>, p: Progress)
    requires
        0 <= p.pos,
        p.state is Length,
        step(setup, data, p) is Some,
    ensures
        p.pos <= step(setup, data, p)->0.pos,
        p.pos <= bit_len(data) ==> step(setup, data, p)->0.pos <= bit_len(data),
{
    lemma_at_length(setup, p);
    lemma_symbol_bits(p.len_code, data, p.pos, 1);
}

proof fn lemma_distance_onward(setup: Setup, data: Seq<u8>, p: Progress)
    requires
        0 <= p.pos,
        p.state is Distance,
        step(setup, data, p) is Some,
    ensures
        p.pos <= step(setup, data, p)->0.pos,
        p.pos <= bit_len(data) ==> step(setup, data, p)->0.pos <= bit_len(data),
{
    lemma_at_distance(setup, p);
    lemma_symbol_bits(p.dist_code, data, p.pos, 1);
}

/// A step takes less than 32 bits if it cannot be taken for want of them.
pub proof fn lemma_step_short(setup: Setup, data: Seq<u8>, p: Progress)
    requires
        step(setup, data, p) is None,
        !halted(p),
    ensures
        bit_len(data) < p.pos + 32,
{
    match p.state {
        State::Start => {
            lemma_at_start(setup, p);
        },
        State::Member => {
            lemma_at_member(setup, p);
        },
        State::Skip(_, _) => {
            lemma_at_skip(setup, p);
        },
        State::Fields(_) => {
            lemma_at_fields(setup, p);
        },
        State::Block => {
            lemma_at_block(setup, p);
        },
        State::StoredLen => {
            lemma_at_stored_len(setup, p);
        },
        State::Stored(_) => {
            lemma_at_stored(setup, p);
        },
        State::CodeLengths(_) => {
            lemma_at_code_lengths(setup, p);
        },
        State::Lengths(_) => {
            lemma_at_lengths(setup, p);
            lemma_symbol_bits(p.len_code, data, p.pos, 1);
        },
        State::Length => {
            lemma_at_length(setup, p);
            lemma_symbol_bits(p.len_code, data, p.pos, 1);
        },
        State::Distance(_) => {
            lemma_at_distance(setup, p);
            lemma_symbol_bits(p.dist_code, data, p.pos, 1);
        },
        State::Checksum => {
            lemma_at_checksum(setup, p);
        },
        State::Size(_) => {
            lemma_at_size(setup, p);
        },
        State::Next => {
            lemma_at_next(setup, p);
        },
        _ => {
            lemma_at_end(setup, p);
        },
    }
}

#[verifier::spinoff_prover]
#[verifier::rlimit(40)]
proof fn lemma_step_onward(setup: Setup, data: Seq<u8>, p: Progress)
    requires
        0 <= p.pos,
        step(setup, data, p) is Some,
    ensures
        ({
            let q = step(setup, data, p)->0;
            &&& p.pos <= q.pos
            &&& p.pos <= bit_len(data) ==> q.pos <= bit_len(data)
        }),
{
    match p.state {
        State::Start => {
            lemma_at_start(setup, p);
        },
        State::Member => {
            lemma_at_member(setup, p);
        },
        State::Skip(_, _) => {
            lemma_at_skip(setup, p);
        },
        State::Fields(_) => {
            lemma_at_fields(setup, p);
        },
        State::Block => {
            lemma_at_block(setup, p);
        },
        State::StoredLen => {
            lemma_at_stored_len(setup, p);
        },
        State::Stored(_) => {
            lemma_at_stored(setup, p);
        },
        State::CodeLengths(_) => {
            lemma_at_code_lengths(setup, p);
        },
        State::Lengths(_) => {
            lemma_lengths_onward(setup, data, p);
        },
        State::Length => {
            lemma_length_onward(setup, data, p);
        },
        State::Distance(_) => {
            lemma_distance_onward(setup, data, p);
        },
        State::Checksum => {
            lemma_at_checksum(setup, p);
        },
        State::Size(_) => {
            lemma_at_size(setup, p);
        },
        State::Next => {
            lemma_at_next(setup, p);
        },
        _ => {
            lemma_at_end(setup, p);
        },
    }
}

/// What a step leaves of the output, and adds to it.
proof fn lemma_step_output(setup: Setup, data: Seq<u8>, p: Progress)
    requires
        step(setup, data, p) is Some,
    ensures
        ({
            let q = step(setup, data, p)->0;
            &&& p.out.is_prefix_of(q.out)
            &&& p.out.len() <= setup.terms.most ==> q.out.len() <= setup.terms.most
        }),
{
    let q = step(setup, data, p)->0;
    match p.state {
        State::Start => {
            lemma_at_start(setup, p);
        },
        State::Member => {
            lemma_at_member(setup, p);
        },
        State::Skip(_, _) => {
            lemma_at_skip(setup, p);
        },
        State::Fields(_) => {
            lemma_at_fields(setup, p);
        },
        State::Block => {
            lemma_at_block(setup, p);
        },
        State::StoredLen => {
            lemma_at_stored_len(setup, p);
        },
        State::Stored(_) => {
            lemma_at_stored(setup, p);
            assert(q.out == p.out || q.out == p.out.push(q.out.last()));
        },
        State::CodeLengths(_) => {
            lemma_at_code_lengths(setup, p);
        },
        State::Lengths(_) => {
            lemma_at_lengths(setup, p);
        },
        State::Length => {
            lemma_at_length(setup, p);
            assert(q.out == p.out || q.out == p.out.push(q.out.last()));
        },
        State::Distance(len) => {
            lemma_at_distance(setup, p);
            if let Found::Symbol(sym, n) = symbol_at(p.dist_code, data, p.pos) {
                if let Some(extra) = read(data, p.pos + n, dist_extra(sym)) {
                    let dist = dist_base(sym) + extra;
                    lemma_copied(p.out, dist, len as nat);
                    lemma_copied(p.out, dist, (setup.terms.most - p.out.len()) as nat);
                }
            }
        },
        State::Checksum => {
            lemma_at_checksum(setup, p);
        },
        State::Size(_) => {
            lemma_at_size(setup, p);
        },
        State::Next => {
            lemma_at_next(setup, p);
        },
        _ => {
            lemma_at_end(setup, p);
        },
    }
}

/// A step goes forward, within the data, and only adds to the output.
pub proof fn lemma_step_forward(setup: Setup, data: Seq<u8>, p: Progress)
    requires
        0 <= p.pos,
        step(setup, data, p) is Some,
    ensures
        ({
            let q = step(setup, data, p)->0;
            &&& p.pos <= q.pos
            &&& p.pos <= bit_len(data) ==> q.pos <= bit_len(data)
            &&& p.out.is_prefix_of(q.out)
            &&& p.out.len() <= setup.terms.most ==> q.out.len() <= setup.terms.most
        }),
{
    lemma_step_onward(setup, data, p);
    lemma_step_output(setup, data, p);
}

/// Decoding goes forward, and only adds to the output.
pub proof fn lemma_advance_forward(setup: Setup, data: Seq<u8>, p: Progress)
    requires
        0 <= p.pos,
    ensures
        p.pos <= advance(setup, data, p).pos,
        p.out.is_prefix_of(advance(setup, data, p).out),
    decreases bits_left(data, p), rank(p.state),
{
    reveal(advance);
    if let Some(q) = step(setup, data, p) {
        lemma_step_forward(setup, data, p);
        lemma_step_shrinks(setup, data, p);
        lemma_advance_forward(setup, data, q);
    }
}

/// There is nothing beyond the end.
pub proof fn lemma_halted_stays(setup: Setup, data: Seq<u8>, p: Progress)
    requires
        halted(p),
    ensures
        step(setup, data, p) is None,
        advance(setup, data, p) == p,
{
    lemma_at_end(setup, p);
    reveal(advance);
}

/// What steps leave as it is.
#[verifier::spinoff_prover]
pub proof fn lemma_step_keeps(setup: Setup, data: Seq<u8>, p: Progress)
    requires
        step(setup, data, p) is Some,
    ensures
        ({
            let q = step(setup, data, p)->0;
            &&& q.state !is Start
            &&& p.marks.subset_of(q.marks)
            &&& p.state !is Start && p.state !is Member ==> q.gzip == p.gzip && q.start == p.start
            &&& p.state !is Block && p.state !is Member ==> q.last == p.last
            &&& p.state is Length || p.state is Distance ==> q.len_code == p.len_code && q.dist_code
                == p.dist_code
            &&& p.state is CodeLengths || p.state is Lengths ==> {
                &&& q.len_syms == p.len_syms
                &&& q.syms == p.syms
                &&& q.code_syms == p.code_syms
            }
        }),
{
    match p.state {
        State::Start => {
            lemma_at_start(setup, p);
        },
        State::Member => {
            lemma_at_member(setup, p);
        },
        State::Skip(_, _) => {
            lemma_at_skip(setup, p);
        },
        State::Fields(_) => {
            lemma_at_fields(setup, p);
        },
        State::Block => {
            lemma_at_block(setup, p);
        },
        State::StoredLen => {
            lemma_at_stored_len(setup, p);
        },
        State::Stored(_) => {
            lemma_at_stored(setup, p);
        },
        State::CodeLengths(_) => {
            lemma_at_code_lengths(setup, p);
        },
        State::Lengths(_) => {
            lemma_at_lengths(setup, p);
        },
        State::Length => {
            lemma_at_length(setup, p);
        },
        State::Distance(_) => {
            lemma_at_distance(setup, p);
        },
        State::Checksum => {
            lemma_at_checksum(setup, p);
        },
        State::Size(_) => {
            lemma_at_size(setup, p);
        },
        State::Next => {
            lemma_at_next(setup, p);
        },
        _ => {
            lemma_at_end(setup, p);
        },
    }
}

/// Going on from where some data got, once there is more, is the same as
/// having had it all at once.
pub proof fn lemma_advance_joined(setup: Setup, data: Seq<u8>, more: Seq<u8>, p: Progress)
    requires
        0 <= p.pos,
    ensures
        advance(setup, data + more, advance(setup, data, p)) == advance(setup, data + more, p),
    decreases bits_left(data, p), rank(p.state),
{
    reveal(advance);
    if let Some(q) = step(setup, data, p) {
        lemma_step_local(setup, data, more, p);
        lemma_step_forward(setup, data, p);
        lemma_step_shrinks(setup, data, p);
        lemma_advance_joined(setup, data, more, q);
    }
}

/// No more than there is gets read.
pub proof fn lemma_advance_within(setup: Setup, data: Seq<u8>, p: Progress)
    requires
        0 <= p.pos <= bit_len(data),
    ensures
        advance(setup, data, p).pos <= bit_len(data),
    decreases bits_left(data, p), rank(p.state),
{
    reveal(advance);
    if let Some(q) = step(setup, data, p) {
        lemma_step_forward(setup, data, p);
        lemma_step_shrinks(setup, data, p);
        lemma_advance_within(setup, data, q);
    }
}

/// Marks stay.
pub proof fn lemma_advance_marks(setup: Setup, data: Seq<u8>, p: Progress)
    ensures
        p.marks.subset_of(advance(setup, data, p).marks),
    decreases bits_left(data, p), rank(p.state),
{
    reveal(advance);
    if let Some(q) = step(setup, data, p) {
        lemma_step_keeps(setup, data, p);
        lemma_step_shrinks(setup, data, p);
        lemma_advance_marks(setup, data, q);
    }
}

/// What has started does not start again.
pub proof fn lemma_advance_started(setup: Setup, data: Seq<u8>, p: Progress)
    requires
        p.state !is Start,
    ensures
        advance(setup, data, p).state !is Start,
    decreases bits_left(data, p), rank(p.state),
{
    reveal(advance);
    if let Some(q) = step(setup, data, p) {
        lemma_step_keeps(setup, data, p);
        lemma_step_shrinks(setup, data, p);
        lemma_advance_started(setup, data, q);
    }
}

pub proof fn lemma_small_powers()
    ensures
        pow2(0) == 1,
        pow2(1) == 2,
        pow2(2) == 4,
        pow2(3) == 8,
        pow2(4) == 16,
        pow2(5) == 32,
        pow2(6) == 64,
        pow2(7) == 128,
        pow2(8) == 256,
        pow2(9) == 512,
        pow2(10) == 1024,
        pow2(11) == 2048,
        pow2(12) == 4096,
        pow2(13) == 8192,
{
    lemma2_to64();
}

/// Lengths are between 3 and 258.
pub proof fn lemma_length_range(s: int, more: nat)
    requires
        0 <= s <= 28,
        more < pow2(length_extra(s)),
    ensures
        length_extra(s) <= 5,
        3 <= length_base(s) <= length_base(s) + more <= 258,
{
    lemma_small_powers();
    if 4 <= s < 28 {
        let e = length_extra(s);
        assert(e == 0 || e == 1 || e == 2 || e == 3 || e == 4 || e == 5);
        assert((4 + s % 4) * pow2(e) <= 7 * pow2(e)) by (nonlinear_arith)
            requires
                0 <= s % 4 <= 3,
        ;
        assert(0 <= (4 + s % 4) * pow2(e)) by (nonlinear_arith)
            requires
                0 <= s % 4 <= 3,
        ;
    }
}

/// Distances are between 1 and 32768.
pub proof fn lemma_dist_range(s: int, more: nat)
    requires
        0 <= s <= 29,
        more < pow2(dist_extra(s)),
    ensures
        dist_extra(s) <= 13,
        1 <= dist_base(s) <= dist_base(s) + more <= 32768,
{
    lemma_small_powers();
    if 2 <= s {
        let e = dist_extra(s);
        assert(e == 0 || e == 1 || e == 2 || e == 3 || e == 4 || e == 5 || e == 6 || e == 7 || e == 8
            || e == 9 || e == 10 || e == 11 || e == 12 || e == 13);
        assert((2 + s % 2) * pow2(e) <= 3 * pow2(e)) by (nonlinear_arith)
            requires
                0 <= s % 2 <= 1,
        ;
        assert(0 <= (2 + s % 2) * pow2(e)) by (nonlinear_arith)
            requires
                0 <= s % 2 <= 1,
        ;
    }
}

/// A number of `n` bits read from the stream, `n` being small.
pub proof fn lemma_read_bound(data: Seq<u8>, pos: int, n: nat)
    ensures
        read(data, pos, n) matches Some(v) ==> v < pow2(n),
        n == 1 ==> (read(data, pos, n) matches Some(v) ==> v < 2),
        n == 2 ==> (read(data, pos, n) matches Some(v) ==> v < 4),
        n == 3 ==> (read(data, pos, n) matches Some(v) ==> v < 8),
        n == 4 ==> (read(data, pos, n) matches Some(v) ==> v < 16),
        n == 5 ==> (read(data, pos, n) matches Some(v) ==> v < 32),
        n == 7 ==> (read(data, pos, n) matches Some(v) ==> v < 128),
        n == 8 ==> (read(data, pos, n) matches Some(v) ==> v < 256),
{
    lemma_number_bound(data, pos, n);
    lemma_small_powers();
}

/// Anything but a compressed block starts and ends on a byte boundary.
#[verifier::spinoff_prover]
proof fn lemma_step_in_place(setup: Setup, data: Seq<u8>, p: Progress)
    requires
        in_place(p),
        step(setup, data, p) is Some,
    ensures
        in_place(step(setup, data, p)->0),
{
    reveal(in_place);
    match p.state {
        State::Start => {
            lemma_at_start(setup, p);
        },
        State::Member => {
            lemma_at_member(setup, p);
        },
        State::Skip(_, _) => {
            lemma_at_skip(setup, p);
        },
        State::Fields(_) => {
            lemma_at_fields(setup, p);
        },
        State::Block => {
            lemma_at_block(setup, p);
        },
        State::StoredLen => {
            lemma_at_stored_len(setup, p);
        },
        State::Stored(_) => {
            lemma_at_stored(setup, p);
        },
        State::CodeLengths(_) => {
            lemma_at_code_lengths(setup, p);
        },
        State::Lengths(_) => {
            lemma_at_lengths(setup, p);
        },
        State::Length => {
            lemma_at_length(setup, p);
        },
        State::Distance(_) => {
            lemma_at_distance(setup, p);
        },
        State::Checksum => {
            lemma_at_checksum(setup, p);
        },
        State::Size(_) => {
            lemma_at_size(setup, p);
        },
        State::Next => {
            lemma_at_next(setup, p);
        },
        _ => {
            lemma_at_end(setup, p);
        },
    }
}

/// A container only leads to what it can hold.
#[verifier::spinoff_prover]
proof fn lemma_step_fits(setup: Setup, data: Seq<u8>, p: Progress)
    requires
        fits(setup, p),
        step(setup, data, p) is Some,
    ensures
        fits(setup, step(setup, data, p)->0),
{
    reveal(fits);
    match p.state {
        State::Start => {
            lemma_at_start(setup, p);
        },
        State::Member => {
            lemma_at_member(setup, p);
        },
        State::Skip(_, _) => {
            lemma_at_skip(setup, p);
        },
        State::Fields(_) => {
            lemma_at_fields(setup, p);
        },
        State::Block => {
            lemma_at_block(setup, p);
        },
        State::StoredLen => {
            lemma_at_stored_len(setup, p);
        },
        State::Stored(_) => {
            lemma_at_stored(setup, p);
        },
        State::CodeLengths(_) => {
            lemma_at_code_lengths(setup, p);
        },
        State::Lengths(_) => {
            lemma_at_lengths(setup, p);
        },
        State::Length => {
            lemma_at_length(setup, p);
        },
        State::Distance(_) => {
            lemma_at_distance(setup, p);
        },
        State::Checksum => {
            lemma_at_checksum(setup, p);
        },
        State::Size(_) => {
            lemma_at_size(setup, p);
        },
        State::Next => {
            lemma_at_next(setup, p);
        },
        _ => {
            lemma_at_end(setup, p);
        },
    }
}

/// Reading code lengths gives code lengths.
proof fn lemma_lengths_orderly(setup: Setup, data: Seq<u8>, p: Progress)
    requires
        orderly(setup, p),
        p.state is Lengths,
        step(setup, data, p) is Some,
    ensures
        orderly(setup, step(setup, data, p)->0),
{
    lemma_at_lengths(setup, p);
    let q = step(setup, data, p)->0;
    lemma_step_in_place(setup, data, p);
    lemma_step_fits(setup, data, p);
    lemma_symbol_bits(p.len_code, data, p.pos, 1);
    if p.lengths.len() < p.syms {
        if let Found::Symbol(sym, n) = symbol_at(p.len_code, data, p.pos) {
            lemma_read_bound(data, p.pos + n, 2);
            lemma_read_bound(data, p.pos + n, 3);
            lemma_read_bound(data, p.pos + n, 7);
            assert(p.lengths.len() > 0 ==> p.lengths[p.lengths.len() - 1] <= 15);
            if q.state is Lengths {
                assert forall|i: int| 0 <= i < q.lengths.len() implies #[trigger] q.lengths[i] <= 15 by {
                    if i < p.lengths.len() {
                        assert(q.lengths[i] == p.lengths[i]);
                    }
                }
            }
        }
    }
}

/// Decoding stays in order.
pub proof fn lemma_step_orderly(setup: Setup, data: Seq<u8>, p: Progress)
    requires
        orderly(setup, p),
        step(setup, data, p) is Some,
    ensures
        orderly(setup, step(setup, data, p)->0),
{
    let q = step(setup, data, p)->0;
    lemma_step_forward(setup, data, p);
    lemma_step_in_place(setup, data, p);
    lemma_step_fits(setup, data, p);
    match p.state {
        State::Start => {
            lemma_at_start(setup, p);
        },
        State::Member => {
            lemma_at_member(setup, p);
        },
        State::Skip(_, _) => {
            lemma_at_skip(setup, p);
        },
        State::Fields(_) => {
            lemma_at_fields(setup, p);
        },
        State::Block => {
            lemma_at_block(setup, p);
            lemma_fixed_complete();
            lemma_read_bound(data, p.pos + 13, 4);
        },
        State::StoredLen => {
            lemma_at_stored_len(setup, p);
        },
        State::Stored(_) => {
            lemma_at_stored(setup, p);
        },
        State::CodeLengths(_) => {
            lemma_at_code_lengths(setup, p);
            lemma_read_bound(data, p.pos, 3);
            lemma_placed_len(p.lengths, p.lengths.len());
            if q.state is CodeLengths {
                assert forall|i: int| 0 <= i < q.lengths.len() implies #[trigger] q.lengths[i] <= 7 by {
                    if i < p.lengths.len() {
                        assert(q.lengths[i] == p.lengths[i]);
                    }
                }
            }
        },
        State::Lengths(_) => {
            lemma_at_lengths(setup, p);
            lemma_lengths_orderly(setup, data, p);
        },
        State::Length => {
            lemma_at_length(setup, p);
            lemma_symbol_bits(p.len_code, data, p.pos, 1);
            if let Found::Symbol(sym, n) = symbol_at(p.len_code, data, p.pos) {
                if 257 <= sym <= 285 {
                    lemma_read_bound(data, p.pos + n, length_extra(sym - 257));
                    if let Some(more) = read(data, p.pos + n, length_extra(sym - 257)) {
                        lemma_length_range(sym - 257, more);
                    }
                }
            }
        },
        State::Distance(_) => {
            lemma_at_distance(setup, p);
        },
        State::Checksum => {
            lemma_at_checksum(setup, p);
        },
        State::Size(_) => {
            lemma_at_size(setup, p);
        },
        State::Next => {
            lemma_at_next(setup, p);
        },
        _ => {
            lemma_at_end(setup, p);
        },
    }
}

pub proof fn lemma_placed_len(stored: Seq<u8>, n: nat)
    requires
        n <= 19,
    ensures
        placed(stored, n).len() == 19,
    decreases n,
{
    if n > 0 {
        lemma_placed_len(stored, (n - 1) as nat);
    }
}

/// All of decoding is in order.
pub proof fn lemma_advance_orderly(setup: Setup, data: Seq<u8>, p: Progress)
    requires
        orderly(setup, p),
    ensures
        orderly(setup, advance(setup, data, p)),
    decreases bits_left(data, p), rank(p.state),
{
    reveal(advance);
    if let Some(q) = step(setup, data, p) {
        lemma_step_orderly(setup, data, p);
        lemma_step_shrinks(setup, data, p);
        lemma_advance_orderly(setup, data, q);
    }
}

} // verus!
