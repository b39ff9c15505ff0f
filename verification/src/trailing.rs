//! What the end of a gzip stream takes: there is nothing more to its data once
//! only its trailer is missing.

use vstd::prelude::*;

use crate::bits::{bit_len, code, lemma_code_prefix};
use crate::decoding::{
    advance, bits_left, halted, in_place, lemma_at_block, lemma_at_checksum, lemma_at_code_lengths,
    lemma_at_distance, lemma_at_end, lemma_at_fields, lemma_at_length, lemma_at_lengths,
    lemma_at_member, lemma_at_next, lemma_at_size, lemma_at_skip, lemma_at_start, lemma_at_stored,
    lemma_at_stored_len, lemma_step_shrinks, orderly, rank, read, step, Progress, Setup, State,
};
use crate::huffman::{has_code, lemma_symbol_bits, lemma_symbol_prefix, symbol_from, Found};
use crate::steps::{lemma_halted_stays, lemma_read_local, lemma_step_forward, lemma_step_orderly};

verus! {

/// A symbol that is not there takes bits that are not.
proof fn lemma_symbol_needed(lengths: Seq<u8>, data: Seq<u8>, more: Seq<u8>, pos: int, n: nat)
    requires
        0 <= pos,
        symbol_from(lengths, data, pos, n) is Short,
    ensures
        symbol_from(lengths, data + more, pos, n) matches Found::Symbol(_, k) ==> bit_len(data) < pos + k,
    decreases 16 - n,
{
    lemma_symbol_bits(lengths, data + more, pos, n);
    if n <= 15 && pos + n <= bit_len(data) {
        lemma_code_prefix(data, more, pos, n);
        if !(exists|s: int| has_code(lengths, s, n, code(data, pos, n))) {
            lemma_symbol_needed(lengths, data, more, pos, n + 1);
        }
    }
}

/// A step that some data does not allow takes bits past it.
#[verifier::spinoff_prover]
#[verifier::rlimit(60)]
pub proof fn lemma_step_needed(setup: Setup, data: Seq<u8>, more: Seq<u8>, p: Progress)
    requires
        0 <= p.pos,
        step(setup, data, p) is None,
        step(setup, data + more, p) matches Some(q) && q.state !is Failed,
    ensures
        bit_len(data) < step(setup, data + more, p)->0.pos,
{
    let longer = data + more;
    assert forall|pos: int, n: nat| 0 <= pos && read(data, pos, n) is Some implies #[trigger] read(
        longer,
        pos,
        n,
    ) == read(data, pos, n) by {
        lemma_read_local(data, more, pos, n);
    }
    match p.state {
        State::Start => {
            lemma_at_start(setup, p);
        },
        State::Member => {
            lemma_at_member(setup, p);
        },
        State::Skip(_, _) => {
            lemma_at_skip(setup, p);
        },
        State::Fields(_) => {
            lemma_at_fields(setup, p);
        },
        State::Block => {
            lemma_at_block(setup, p);
        },
        State::StoredLen => {
            lemma_at_stored_len(setup, p);
        },
        State::Stored(_) => {
            lemma_at_stored(setup, p);
        },
        State::CodeLengths(_) => {
            lemma_at_code_lengths(setup, p);
        },
        State::Lengths(_) => {
            lemma_at_lengths(setup, p);
            lemma_symbol_found(p.len_code, data, more, p.pos);
        },
        State::Length => {
            lemma_at_length(setup, p);
            lemma_symbol_found(p.len_code, data, more, p.pos);
        },
        State::Distance(_) => {
            lemma_at_distance(setup, p);
            lemma_symbol_found(p.dist_code, data, more, p.pos);
        },
        State::Checksum => {
            lemma_at_checksum(setup, p);
        },
        State::Size(_) => {
            lemma_at_size(setup, p);
        },
        State::Next => {
            lemma_at_next(setup, p);
        },
        _ => {
            lemma_at_end(setup, p);
        },
    }
}

/// A symbol is the same in more data, or takes bits that are only there.
proof fn lemma_symbol_found(lengths: Seq<u8>, data: Seq<u8>, more: Seq<u8>, pos: int)
    requires
        0 <= pos,
    ensures
        symbol_from(lengths, data, pos, 1) !is Short ==> symbol_from(lengths, data + more, pos, 1)
            == symbol_from(lengths, data, pos, 1),
        symbol_from(lengths, data, pos, 1) is Short ==> (symbol_from(lengths, data + more, pos, 1) matches
            Found::Symbol(_, k) ==> bit_len(data) < pos + k),
{
    if symbol_from(lengths, data, pos, 1) is Short {
        lemma_symbol_needed(lengths, data, more, pos, 1);
    } else {
        lemma_symbol_prefix(lengths, data, more, pos, 1);
    }
}

/// Whether a gzip stream is at its trailer, or past it.
pub open spec fn trailing(state: State) -> bool {
    match state {
        State::Checksum => true,
        State::Size(_) => true,
        State::Next => true,
        State::Done => true,
        State::Failed(_) => true,
        _ => false,
    }
}

/// Only a block leads to the trailer.
#[verifier::spinoff_prover]
#[verifier::rlimit(30)]
proof fn lemma_step_to_trailer(setup: Setup, data: Seq<u8>, p: Progress)
    requires
        setup.kind is Gzip,
        !trailing(p.state),
        step(setup, data, p) is Some,
    ensures
        ({
            let q = step(setup, data, p)->0;
            !trailing(q.state) || q.state is Failed || q.state is Checksum
        }),
{
    match p.state {
        State::Start => {
            lemma_at_start(setup, p);
        },
        State::Member => {
            lemma_at_member(setup, p);
        },
        State::Skip(_, _) => {
            lemma_at_skip(setup, p);
        },
        State::Fields(_) => {
            lemma_at_fields(setup, p);
        },
        State::Block => {
            lemma_at_block(setup, p);
        },
        State::StoredLen => {
            lemma_at_stored_len(setup, p);
        },
        State::Stored(_) => {
            lemma_at_stored(setup, p);
        },
        State::CodeLengths(_) => {
            lemma_at_code_lengths(setup, p);
        },
        State::Lengths(_) => {
            lemma_at_lengths(setup, p);
        },
        State::Length => {
            lemma_at_length(setup, p);
        },
        State::Distance(_) => {
            lemma_at_distance(setup, p);
        },
        _ => {},
    }
}

/// From a checksum to what may follow the member, in 64 bits that are there.
proof fn lemma_from_checksum(setup: Setup, data: Seq<u8>, p: Progress)
    requires
        0 <= p.pos,
        p.gzip,
        p.state is Checksum,
        advance(setup, data, p).state is Next,
    ensures
        p.pos + 64 <= bit_len(data),
        advance(setup, data, p) == advance(setup, data, Progress { state: State::Next, pos: p.pos + 64, ..p }),
{
    reveal(advance);
    lemma_at_checksum(setup, p);
    if let Some(q) = step(setup, data, p) {
        lemma_from_size(setup, data, q);
    }
}

proof fn lemma_from_size(setup: Setup, data: Seq<u8>, p: Progress)
    requires
        0 <= p.pos,
        p.gzip,
        p.state is Size,
        advance(setup, data, p).state is Next,
    ensures
        p.pos + 32 <= bit_len(data),
        advance(setup, data, p) == advance(setup, data, Progress { state: State::Next, pos: p.pos + 32, ..p }),
{
    reveal(advance);
    lemma_at_size(setup, p);
    if let Some(q) = step(setup, data, p) {
        if q.state is Failed {
            lemma_halted_stays(setup, data, q);
        }
    }
}

/// What is before the trailer leaves the bits of the trailer to come.
proof fn lemma_before_trailer(setup: Setup, data: Seq<u8>, p: Progress)
    requires
        setup.kind is Gzip,
        orderly(setup, p),
        !trailing(p.state),
        advance(setup, data, p).state is Next,
    ensures
        step(setup, data, p) matches Some(q) && q.state !is Failed && q.pos + 64 <= bit_len(data),
    decreases bits_left(data, p), rank(p.state),
{
    reveal(advance);
    let q = step(setup, data, p)->0;
    lemma_step_to_trailer(setup, data, p);
    lemma_step_orderly(setup, data, p);
    lemma_step_shrinks(setup, data, p);
    if q.state is Failed {
        lemma_halted_stays(setup, data, q);
    } else if q.state is Checksum {
        lemma_from_checksum(setup, data, q);
    } else {
        lemma_before_trailer(setup, data, q);
        lemma_step_forward(setup, data, q);
    }
}

/// There is no room for another member in 64 bits.
proof fn lemma_no_member(setup: Setup, data: Seq<u8>, p: Progress)
    requires
        setup.kind is Gzip,
        orderly(setup, p),
        p.state is Next,
        advance(setup, data, p).state is Next,
        bit_len(data) < p.pos + 72,
    ensures
        advance(setup, data, p) == p,
{
    reveal(advance);
    lemma_at_next(setup, p);
    if let Some(q) = step(setup, data, p) {
        lemma_step_orderly(setup, data, p);
        if q.state is Member {
            lemma_before_trailer(setup, data, q);
            lemma_step_forward(setup, data, q);
        } else {
            lemma_halted_stays(setup, data, q);
        }
    }
}

/// What is missing no more than its trailer is not missing any data, and is
/// missing something.
pub proof fn lemma_all_out(setup: Setup, some: Seq<u8>, more: Seq<u8>, e: Progress)
    requires
        setup.kind is Gzip,
        orderly(setup, e),
        e.pos <= bit_len(some),
        step(setup, some, e) is None,
        advance(setup, some + more, e).state is Next,
        advance(setup, some + more, e).pos == bit_len(some + more),
        0 < more.len() <= 8,
    ensures
        e.out == advance(setup, some + more, e).out,
        e.state !is Next,
        !halted(e),
{
    let data = some + more;
    if halted(e) {
        lemma_halted_stays(setup, data, e);
    }
    if !trailing(e.state) {
        lemma_before_trailer(setup, data, e);
        lemma_step_needed(setup, some, more, e);
    } else if e.state is Checksum {
        reveal(crate::decoding::fits);
        lemma_at_checksum(setup, e);
        lemma_from_checksum(setup, data, e);
        let n = Progress { state: State::Next, pos: e.pos + 64, ..e };
        assert(orderly(setup, n)) by {
            reveal(in_place);
        }
        lemma_no_member(setup, data, n);
    } else if e.state is Size {
        reveal(crate::decoding::fits);
        lemma_at_size(setup, e);
        lemma_from_size(setup, data, e);
        let n = Progress { state: State::Next, pos: e.pos + 32, ..e };
        assert(orderly(setup, n)) by {
            reveal(in_place);
        }
        lemma_no_member(setup, data, n);
    } else if e.state is Next {
        lemma_at_next(setup, e);
        assert(e.pos % 8 == 0) by {
            reveal(in_place);
        }
        lemma_no_member(setup, data, e);
    }
}

} // verus!
