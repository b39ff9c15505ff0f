//! What a stream that has a single member comes to.

use vstd::prelude::*;

use crate::bits::{bit_len, number};
use crate::decoding::{
    advance, bits_left, fixed_len_code, in_place, lemma_at_block, lemma_at_checksum,
    lemma_at_code_lengths, lemma_at_distance, lemma_at_end, lemma_at_fields, lemma_at_length,
    lemma_at_lengths, lemma_at_member, lemma_at_next, lemma_at_size, lemma_at_skip, lemma_at_start,
    lemma_at_stored, lemma_at_stored_len, lemma_step_shrinks, orderly, rank, step, Progress, Setup,
    State,
};
use crate::huffman::lemma_symbol_bits;
use crate::steps::{lemma_halted_stays, lemma_step_forward, lemma_step_local, lemma_step_orderly};
use crate::trailing::{lemma_step_needed, trailing};

verus! {

/// How far `data` gets decoding, up to where another member may follow.
#[verifier::opaque]
pub open spec fn up_to_next(setup: Setup, data: Seq<u8>, p: Progress) -> Progress
    decreases bits_left(data, p), rank(p.state),
{
    if p.state is Next {
        p
    } else {
        match step(setup, data, p) {
            None => p,
            Some(q) => {
                proof {
                    lemma_step_shrinks(setup, data, p);
                }
                up_to_next(setup, data, q)
            },
        }
    }
}

/// What is decoded goes on from there.
pub proof fn lemma_beyond(setup: Setup, data: Seq<u8>, p: Progress)
    ensures
        advance(setup, data, p) == advance(setup, data, up_to_next(setup, data, p)),
        up_to_next(setup, data, p).state !is Next ==> advance(setup, data, p) == up_to_next(setup, data, p),
    decreases bits_left(data, p), rank(p.state),
{
    reveal(up_to_next);
    reveal(advance);
    if p.state !is Next {
        if let Some(q) = step(setup, data, p) {
            lemma_step_shrinks(setup, data, p);
            lemma_beyond(setup, data, q);
        }
    }
}

pub proof fn lemma_next_forward(setup: Setup, data: Seq<u8>, p: Progress)
    requires
        0 <= p.pos,
    ensures
        p.pos <= up_to_next(setup, data, p).pos,
        p.pos <= bit_len(data) ==> up_to_next(setup, data, p).pos <= bit_len(data),
    decreases bits_left(data, p), rank(p.state),
{
    reveal(up_to_next);
    if p.state !is Next {
        if let Some(q) = step(setup, data, p) {
            lemma_step_shrinks(setup, data, p);
            lemma_step_forward(setup, data, p);
            lemma_next_forward(setup, data, q);
        }
    }
}

/// Another member may follow where a byte starts.
pub proof fn lemma_next_in_place(setup: Setup, data: Seq<u8>, p: Progress)
    requires
        orderly(setup, p),
    ensures
        up_to_next(setup, data, p).state is Next ==> up_to_next(setup, data, p).pos % 8 == 0,
    decreases bits_left(data, p), rank(p.state),
{
    reveal(up_to_next);
    if p.state is Next {
        reveal(in_place);
    } else if let Some(q) = step(setup, data, p) {
        lemma_step_shrinks(setup, data, p);
        lemma_step_orderly(setup, data, p);
        lemma_next_in_place(setup, data, q);
    }
}

/// What leads to where another member may follow is all that it takes to get
/// there.
pub proof fn lemma_next_local(setup: Setup, some: Seq<u8>, more: Seq<u8>, p: Progress)
    requires
        0 <= p.pos,
        up_to_next(setup, some + more, p).state is Next,
        up_to_next(setup, some + more, p).pos <= bit_len(some),
    ensures
        up_to_next(setup, some, p) == up_to_next(setup, some + more, p),
    decreases bits_left(some + more, p), rank(p.state),
{
    reveal(up_to_next);
    let data = some + more;
    if p.state !is Next {
        let q = step(setup, data, p)->0;
        lemma_step_shrinks(setup, data, p);
        lemma_step_forward(setup, data, p);
        lemma_next_forward(setup, data, q);
        if q.state is Failed {
            lemma_halted_stays(setup, data, q);
        }
        if step(setup, some, p) is None {
            lemma_step_needed(setup, some, more, p);
        } else {
            lemma_step_local(setup, some, more, p);
        }
        lemma_next_local(setup, some, more, q);
    }
}

/// More data does not change where another member may first follow.
pub proof fn lemma_next_stays(setup: Setup, some: Seq<u8>, more: Seq<u8>, p: Progress)
    requires
        0 <= p.pos,
        up_to_next(setup, some, p).state is Next,
    ensures
        up_to_next(setup, some + more, p) == up_to_next(setup, some, p),
    decreases bits_left(some, p), rank(p.state),
{
    reveal(up_to_next);
    if p.state !is Next {
        lemma_step_shrinks(setup, some, p);
        lemma_step_forward(setup, some, p);
        lemma_step_local(setup, some, more, p);
        lemma_next_stays(setup, some, more, step(setup, some, p)->0);
    }
}

/// What holds of decoding a single member, or a stream that has none, on top of
/// `base` bytes.
pub open spec fn tidy(setup: Setup, data: Seq<u8>, base: int, p: Progress) -> bool {
    &&& 0 <= base <= p.out.len()
    &&& p.gzip ==> setup.kind is Gzip || setup.kind is Detect
    &&& forall|x: int| #[trigger]
        p.marks.contains(x) ==> x == base || p.state is Failed || (trailing(p.state) && x
            == p.out.len())
    &&& match p.state {
        State::Start => p.out.len() == base,
        State::Member => p.out.len() == base && (setup.kind is Gzip || setup.kind is Detect),
        State::Failed(_) => true,
        State::Next => {
            &&& p.gzip
            &&& p.start == base
            &&& number(data, p.pos - 32, 32) == (p.out.len() - base) % 0x1_0000_0000
        },
        State::Checksum => setup.kind !is Raw && p.start == base,
        State::Size(_) => setup.kind !is Raw && p.start == base,
        _ => setup.kind is Raw || p.start == base,
    }
}

#[verifier::spinoff_prover]
#[verifier::rlimit(60)]
proof fn lemma_step_tidy(setup: Setup, data: Seq<u8>, base: int, p: Progress)
    requires
        0 <= p.pos,
        tidy(setup, data, base, p),
        p.state !is Next,
        step(setup, data, p) is Some,
    ensures
        tidy(setup, data, base, step(setup, data, p)->0),
{
    lemma_step_forward(setup, data, p);
    match p.state {
        State::Start => {
            lemma_at_start(setup, p);
        },
        State::Member => {
            lemma_at_member(setup, p);
        },
        State::Skip(_, _) => {
            lemma_at_skip(setup, p);
        },
        State::Fields(_) => {
            lemma_at_fields(setup, p);
        },
        State::Block => {
            lemma_at_block(setup, p);
        },
        State::StoredLen => {
            lemma_at_stored_len(setup, p);
        },
        State::Stored(_) => {
            lemma_at_stored(setup, p);
        },
        State::CodeLengths(_) => {
            lemma_at_code_lengths(setup, p);
        },
        State::Lengths(_) => {
            lemma_at_lengths(setup, p);
        },
        State::Length => {
            lemma_at_length(setup, p);
        },
        State::Distance(_) => {
            lemma_at_distance(setup, p);
        },
        State::Checksum => {
            lemma_at_checksum(setup, p);
        },
        State::Size(_) => {
            lemma_at_size(setup, p);
        },
        _ => {
            lemma_at_end(setup, p);
        },
    }
}

/// It holds up to where another member may follow.
pub proof fn lemma_tidy(setup: Setup, data: Seq<u8>, base: int, p: Progress)
    requires
        0 <= p.pos,
        tidy(setup, data, base, p),
    ensures
        tidy(setup, data, base, up_to_next(setup, data, p)),
    decreases bits_left(data, p), rank(p.state),
{
    reveal(up_to_next);
    if p.state !is Next {
        if let Some(q) = step(setup, data, p) {
            lemma_step_shrinks(setup, data, p);
            lemma_step_forward(setup, data, p);
            lemma_step_tidy(setup, data, base, p);
            lemma_tidy(setup, data, base, q);
        }
    }
}

/// How far a gzip stream has got at the least: the header takes ten bytes, and
/// the data two.
pub open spec fn far(p: Progress) -> bool {
    match p.state {
        State::Start => true,
        State::Member => p.pos >= 8,
        State::Skip(bytes, _) => p.gzip && p.pos + 8 * bytes >= 80,
        State::Fields(_) => p.gzip && p.pos >= 80,
        State::Block => p.gzip && p.pos >= 80,
        State::StoredLen => p.gzip && p.pos >= 88,
        State::Stored(_) => p.gzip && p.pos >= 120,
        State::CodeLengths(_) => p.gzip && p.pos >= 97,
        State::Lengths(_) => p.gzip && p.pos >= 97,
        State::Length => p.gzip && (p.pos >= 97 || (p.pos >= 83 && p.len_code == fixed_len_code())),
        State::Distance(_) => p.gzip && (p.pos >= 97 || (p.pos >= 83 && p.len_code
            == fixed_len_code())),
        State::Checksum => p.gzip && p.pos >= 96,
        State::Size(_) => p.gzip && p.pos >= 128,
        State::Next => p.pos >= 160,
        State::Done => p.pos >= 160,
        State::Failed(_) => true,
    }
}

#[verifier::spinoff_prover]
#[verifier::rlimit(60)]
proof fn lemma_step_far(setup: Setup, data: Seq<u8>, p: Progress)
    requires
        setup.kind is Gzip,
        0 <= p.pos,
        far(p),
        step(setup, data, p) is Some,
    ensures
        far(step(setup, data, p)->0),
{
    match p.state {
        State::Start => {
            lemma_at_start(setup, p);
        },
        State::Member => {
            lemma_at_member(setup, p);
        },
        State::Skip(_, _) => {
            lemma_at_skip(setup, p);
        },
        State::Fields(_) => {
            lemma_at_fields(setup, p);
        },
        State::Block => {
            lemma_at_block(setup, p);
        },
        State::StoredLen => {
            lemma_at_stored_len(setup, p);
        },
        State::Stored(_) => {
            lemma_at_stored(setup, p);
        },
        State::CodeLengths(_) => {
            lemma_at_code_lengths(setup, p);
        },
        State::Lengths(_) => {
            lemma_at_lengths(setup, p);
            lemma_symbol_bits(p.len_code, data, p.pos, 1);
        },
        State::Length => {
            lemma_at_length(setup, p);
            lemma_symbol_bits(p.len_code, data, p.pos, 1);
        },
        State::Distance(_) => {
            lemma_at_distance(setup, p);
            lemma_symbol_bits(p.dist_code, data, p.pos, 1);
        },
        State::Checksum => {
            lemma_at_checksum(setup, p);
        },
        State::Size(_) => {
            lemma_at_size(setup, p);
        },
        State::Next => {
            lemma_at_next(setup, p);
        },
        _ => {
            lemma_at_end(setup, p);
        },
    }
}

/// A gzip stream has twenty bytes or more.
pub proof fn lemma_far(setup: Setup, data: Seq<u8>, p: Progress)
    requires
        setup.kind is Gzip,
        0 <= p.pos,
        far(p),
    ensures
        far(advance(setup, data, p)),
    decreases bits_left(data, p), rank(p.state),
{
    reveal(advance);
    if let Some(q) = step(setup, data, p) {
        lemma_step_shrinks(setup, data, p);
        lemma_step_forward(setup, data, p);
        lemma_step_far(setup, data, p);
        lemma_far(setup, data, q);
    }
}

} // verus!
