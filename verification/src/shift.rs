//! Decoding does not depend on where in the input a stream starts.

use vstd::prelude::*;

use crate::bits::{align, bit, bit_len, code, number};
use crate::decoding::{
    advance, bits_left, block_ended, dist_extra, lemma_at_block, lemma_at_checksum,
    lemma_at_code_lengths, lemma_at_distance, lemma_at_end, lemma_at_fields, lemma_at_length,
    lemma_at_lengths, lemma_at_member, lemma_at_next, lemma_at_size, lemma_at_skip, lemma_at_start,
    lemma_at_stored, lemma_at_stored_len, lemma_step_shrinks, length_extra, rank, read, step,
    step_block, step_checksum, step_code_lengths, step_distance, step_fields, step_length,
    step_lengths, step_member, step_next, step_size, step_skip, step_start, step_stored,
    step_stored_len, Progress, Setup, State,
};
use crate::huffman::{symbol_at, symbol_from, Found};
use crate::steps::lemma_step_forward;

verus! {

/// The same, so many bytes further in the input.
pub open spec fn shifted(p: Progress, bytes: nat) -> Progress {
    Progress { pos: p.pos + 8 * bytes, ..p }
}

pub proof fn lemma_bit_shift(a: Seq<u8>, b: Seq<u8>, i: int)
    requires
        0 <= i < bit_len(b),
    ensures
        bit(a + b, i + 8 * a.len()) == bit(b, i),
{
    assert((i + 8 * a.len()) / 8 == i / 8 + a.len());
    assert((i + 8 * a.len()) % 8 == i % 8);
    assert((a + b)[i / 8 + a.len()] == b[i / 8]);
}

proof fn lemma_number_shift(a: Seq<u8>, b: Seq<u8>, pos: int, n: nat)
    requires
        0 <= pos,
        pos + n <= bit_len(b),
    ensures
        number(a + b, pos + 8 * a.len(), n) == number(b, pos, n),
    decreases n,
{
    if n > 0 {
        lemma_bit_shift(a, b, pos);
        lemma_number_shift(a, b, pos + 1, (n - 1) as nat);
    }
}

proof fn lemma_code_shift(a: Seq<u8>, b: Seq<u8>, pos: int, n: nat)
    requires
        0 <= pos,
        pos + n <= bit_len(b),
    ensures
        code(a + b, pos + 8 * a.len(), n) == code(b, pos, n),
    decreases n,
{
    if n > 0 {
        lemma_bit_shift(a, b, pos + n - 1);
        lemma_code_shift(a, b, pos, (n - 1) as nat);
    }
}

proof fn lemma_symbol_shift(lengths: Seq<u8>, a: Seq<u8>, b: Seq<u8>, pos: int, n: nat)
    requires
        0 <= pos,
    ensures
        symbol_from(lengths, a + b, pos + 8 * a.len(), n) == symbol_from(lengths, b, pos, n),
    decreases 16 - n,
{
    if n <= 15 && pos + n <= bit_len(b) {
        lemma_code_shift(a, b, pos, n);
        lemma_symbol_shift(lengths, a, b, pos, n + 1);
    }
}

/// Reading is the same further on.
proof fn lemma_read_shift(a: Seq<u8>, b: Seq<u8>, pos: int, n: nat)
    requires
        0 <= pos,
    ensures
        read(a + b, pos + 8 * a.len(), n) == read(b, pos, n),
{
    if pos + n <= bit_len(b) {
        lemma_number_shift(a, b, pos, n);
    }
}

/// The same step, so many bytes further in the input.
pub open spec fn shifted_step(q: Option<Progress>, bytes: nat) -> Option<Progress> {
    match q {
        Some(q) => Some(shifted(q, bytes)),
        None => None,
    }
}

proof fn lemma_header_shift(setup: Setup, a: Seq<u8>, b: Seq<u8>, p: Progress)
    requires
        0 <= p.pos,
    ensures
        step_start(setup, a + b, shifted(p, a.len())) == shifted_step(step_start(setup, b, p), a.len()),
        step_member(a + b, shifted(p, a.len())) == shifted_step(step_member(b, p), a.len()),
{
    lemma_read_shift(a, b, p.pos, 8);
    lemma_read_shift(a, b, p.pos + 8, 8);
    lemma_read_shift(a, b, p.pos + 16, 8);
}

proof fn lemma_fields_shift(a: Seq<u8>, b: Seq<u8>, p: Progress, bytes: u16, flags: u16)
    requires
        0 <= p.pos,
    ensures
        step_skip(a + b, shifted(p, a.len()), bytes, flags) == shifted_step(
            step_skip(b, p, bytes, flags),
            a.len(),
        ),
        step_fields(a + b, shifted(p, a.len()), flags) == shifted_step(step_fields(b, p, flags), a.len()),
{
    lemma_read_shift(a, b, p.pos, 8);
    lemma_read_shift(a, b, p.pos, 16);
}

proof fn lemma_block_shift(a: Seq<u8>, b: Seq<u8>, p: Progress)
    requires
        0 <= p.pos,
    ensures
        step_block(a + b, shifted(p, a.len())) == shifted_step(step_block(b, p), a.len()),
{
    lemma_read_shift(a, b, p.pos, 1);
    lemma_read_shift(a, b, p.pos + 1, 2);
    lemma_read_shift(a, b, p.pos + 3, 5);
    lemma_read_shift(a, b, p.pos + 8, 5);
    lemma_read_shift(a, b, p.pos + 13, 4);
    assert(align(p.pos + 8 * a.len() + 3) == align(p.pos + 3) + 8 * a.len());
}

proof fn lemma_ended_shift(setup: Setup, p: Progress, bytes: nat)
    ensures
        block_ended(setup, shifted(p, bytes)) == shifted(block_ended(setup, p), bytes),
{
    assert(align(p.pos + 8 * bytes) == align(p.pos) + 8 * bytes);
}

proof fn lemma_stored_shift(setup: Setup, a: Seq<u8>, b: Seq<u8>, p: Progress, bytes: u16)
    requires
        0 <= p.pos,
    ensures
        step_stored_len(a + b, shifted(p, a.len())) == shifted_step(step_stored_len(b, p), a.len()),
        step_stored(setup, a + b, shifted(p, a.len()), bytes) == shifted_step(
            step_stored(setup, b, p, bytes),
            a.len(),
        ),
{
    lemma_read_shift(a, b, p.pos, 16);
    lemma_read_shift(a, b, p.pos + 16, 16);
    lemma_read_shift(a, b, p.pos, 8);
    lemma_ended_shift(setup, p, a.len());
}

proof fn lemma_lengths_shift(a: Seq<u8>, b: Seq<u8>, p: Progress)
    requires
        0 <= p.pos,
    ensures
        step_code_lengths(a + b, shifted(p, a.len())) == shifted_step(step_code_lengths(b, p), a.len()),
        step_lengths(a + b, shifted(p, a.len())) == shifted_step(step_lengths(b, p), a.len()),
{
    lemma_read_shift(a, b, p.pos, 3);
    lemma_symbol_shift(p.len_code, a, b, p.pos, 1);
    if let Found::Symbol(_, n) = symbol_at(p.len_code, b, p.pos) {
        lemma_read_shift(a, b, p.pos + n, 2);
        lemma_read_shift(a, b, p.pos + n, 3);
        lemma_read_shift(a, b, p.pos + n, 7);
    }
}

proof fn lemma_length_shift(setup: Setup, a: Seq<u8>, b: Seq<u8>, p: Progress)
    requires
        0 <= p.pos,
    ensures
        step_length(setup, a + b, shifted(p, a.len())) == shifted_step(step_length(setup, b, p), a.len()),
{
    lemma_symbol_shift(p.len_code, a, b, p.pos, 1);
    if let Found::Symbol(sym, n) = symbol_at(p.len_code, b, p.pos) {
        lemma_read_shift(a, b, p.pos + n, length_extra(sym - 257));
        lemma_ended_shift(setup, Progress { pos: p.pos + n, ..p }, a.len());
    }
}

proof fn lemma_distance_shift(setup: Setup, a: Seq<u8>, b: Seq<u8>, p: Progress, len: u32)
    requires
        0 <= p.pos,
    ensures
        step_distance(setup, a + b, shifted(p, a.len()), len) == shifted_step(
            step_distance(setup, b, p, len),
            a.len(),
        ),
{
    lemma_symbol_shift(p.dist_code, a, b, p.pos, 1);
    if let Found::Symbol(sym, n) = symbol_at(p.dist_code, b, p.pos) {
        lemma_read_shift(a, b, p.pos + n, dist_extra(sym));
    }
}

proof fn lemma_trailer_shift(setup: Setup, a: Seq<u8>, b: Seq<u8>, p: Progress, sum: u32)
    requires
        0 <= p.pos,
    ensures
        step_checksum(setup, a + b, shifted(p, a.len())) == shifted_step(
            step_checksum(setup, b, p),
            a.len(),
        ),
        step_size(setup, a + b, shifted(p, a.len()), sum) == shifted_step(
            step_size(setup, b, p, sum),
            a.len(),
        ),
        step_next(a + b, shifted(p, a.len())) == shifted_step(step_next(b, p), a.len()),
{
    lemma_read_shift(a, b, p.pos, 32);
    lemma_read_shift(a, b, p.pos, 8);
}

/// A step is the same further on.
pub proof fn lemma_step_shift(setup: Setup, a: Seq<u8>, b: Seq<u8>, p: Progress)
    requires
        0 <= p.pos,
    ensures
        step(setup, a + b, shifted(p, a.len())) == shifted_step(step(setup, b, p), a.len()),
{
    match p.state {
        State::Start => {
            lemma_at_start(setup, p);
            lemma_at_start(setup, shifted(p, a.len()));
            lemma_header_shift(setup, a, b, p);
        },
        State::Member => {
            lemma_at_member(setup, p);
            lemma_at_member(setup, shifted(p, a.len()));
            lemma_header_shift(setup, a, b, p);
        },
        State::Skip(bytes, flags) => {
            lemma_at_skip(setup, p);
            lemma_at_skip(setup, shifted(p, a.len()));
            lemma_fields_shift(a, b, p, bytes, flags);
        },
        State::Fields(flags) => {
            lemma_at_fields(setup, p);
            lemma_at_fields(setup, shifted(p, a.len()));
            lemma_fields_shift(a, b, p, 0, flags);
        },
        State::Block => {
            lemma_at_block(setup, p);
            lemma_at_block(setup, shifted(p, a.len()));
            lemma_block_shift(a, b, p);
        },
        State::StoredLen => {
            lemma_at_stored_len(setup, p);
            lemma_at_stored_len(setup, shifted(p, a.len()));
            lemma_stored_shift(setup, a, b, p, 0);
        },
        State::Stored(bytes) => {
            lemma_at_stored(setup, p);
            lemma_at_stored(setup, shifted(p, a.len()));
            lemma_stored_shift(setup, a, b, p, bytes);
        },
        State::CodeLengths(_) => {
            lemma_at_code_lengths(setup, p);
            lemma_at_code_lengths(setup, shifted(p, a.len()));
            lemma_lengths_shift(a, b, p);
        },
        State::Lengths(_) => {
            lemma_at_lengths(setup, p);
            lemma_at_lengths(setup, shifted(p, a.len()));
            lemma_lengths_shift(a, b, p);
        },
        State::Length => {
            lemma_at_length(setup, p);
            lemma_at_length(setup, shifted(p, a.len()));
            lemma_length_shift(setup, a, b, p);
        },
        State::Distance(len) => {
            lemma_at_distance(setup, p);
            lemma_at_distance(setup, shifted(p, a.len()));
            lemma_distance_shift(setup, a, b, p, len);
        },
        State::Checksum => {
            lemma_at_checksum(setup, p);
            lemma_at_checksum(setup, shifted(p, a.len()));
            lemma_trailer_shift(setup, a, b, p, 0);
        },
        State::Size(sum) => {
            lemma_at_size(setup, p);
            lemma_at_size(setup, shifted(p, a.len()));
            lemma_trailer_shift(setup, a, b, p, sum);
        },
        State::Next => {
            lemma_at_next(setup, p);
            lemma_at_next(setup, shifted(p, a.len()));
            lemma_trailer_shift(setup, a, b, p, 0);
        },
        _ => {
            lemma_at_end(setup, p);
            lemma_at_end(setup, shifted(p, a.len()));
        },
    }
}

/// Decoding is the same further on.
pub proof fn lemma_advance_shift(setup: Setup, a: Seq<u8>, b: Seq<u8>, p: Progress)
    requires
        0 <= p.pos,
    ensures
        advance(setup, a + b, shifted(p, a.len())) == shifted(advance(setup, b, p), a.len()),
    decreases bits_left(b, p), rank(p.state),
{
    reveal(advance);
    lemma_step_shift(setup, a, b, p);
    if let Some(q) = step(setup, b, p) {
        lemma_step_shrinks(setup, b, p);
        lemma_step_forward(setup, b, p);
        lemma_advance_shift(setup, a, b, q);
    }
}

} // verus!
