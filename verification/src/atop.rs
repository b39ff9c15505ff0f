//! What was output before a stream makes no difference to it, nor does what
//! else the output would take.

use vstd::prelude::*;

use crate::decoding::{
    advance, bits_left, dist_base, dist_extra, lemma_at_block, lemma_at_checksum,
    lemma_at_code_lengths, lemma_at_distance, lemma_at_end, lemma_at_fields, lemma_at_length,
    lemma_at_lengths, lemma_at_member, lemma_at_next, lemma_at_size, lemma_at_skip, lemma_at_start,
    lemma_at_stored, lemma_at_stored_len, lemma_step_shrinks, orderly, rank, read, step, verified,
    with_byte, with_copy, Kind, Progress, Setup, State,
};
use crate::error::Error;
use crate::huffman::{lemma_symbol_bits, symbol_at, Found};
use crate::output::{copied, lemma_copied, Terms};
use crate::steps::{
    lemma_advance_forward, lemma_dist_range, lemma_halted_stays, lemma_read_bound,
    lemma_step_forward, lemma_step_orderly,
};

verus! {

/// Whether an output that takes `b` has room for `len` bytes that one that
/// takes `a` had room for: 32768 bytes within reach of copies will do for any
/// stream, less for one that needs less.
pub open spec fn as_roomy(a: Terms, b: Terms, len: int) -> bool {
    &&& len <= b.most
    &&& len <= b.reach || 32768 <= b.reach || 0 <= a.reach <= b.reach
}

/// Whether an error that decoding comes to is about the stream: not about what
/// the output takes, nor about a checksum that is verified in one case alone,
/// nor about a distance that what was output before may make up for.
pub open spec fn inherent(a: Setup, b: Setup, earlier: Seq<u8>, error: Error) -> bool {
    &&& error != Error::OutputFull
    &&& error != Error::WindowTooSmall
    &&& error == Error::ChecksumMismatch ==> a.verify == b.verify
    &&& error == Error::InvalidDistance ==> earlier.len() == 0
}

/// Whether it matters, for the sake of a checksum, where the output starts.
spec fn sums(kind: Kind, state: State) -> bool {
    &&& kind !is Raw
    &&& match state {
        State::Start => false,
        State::Member => false,
        State::Next => false,
        State::Done => false,
        State::Failed(_) => false,
        _ => true,
    }
}

/// Whether decoding is as far in `q` as it is in `p`, but for `earlier` being
/// output before.
pub closed spec fn on_top(kind: Kind, earlier: Seq<u8>, p: Progress, q: Progress) -> bool {
    &&& q == Progress { out: earlier + p.out, start: q.start, marks: q.marks, ..p }
    &&& sums(kind, p.state) ==> 0 <= p.start <= p.out.len() && q.start == p.start + earlier.len()
    &&& kind is Raw ==> p.state !is Checksum && p.state !is Size
}

pub proof fn lemma_on_top(kind: Kind, earlier: Seq<u8>, p: Progress, q: Progress)
    requires
        on_top(kind, earlier, p, q),
    ensures
        q.state == p.state,
        q.pos == p.pos,
        q.out == earlier + p.out,
{
}

pub proof fn lemma_on_top_start(kind: Kind, earlier: Seq<u8>, p: Progress, q: Progress)
    requires
        p.state is Start,
        q == (Progress { out: earlier + p.out, ..p }),
    ensures
        on_top(kind, earlier, p, q),
{
}

proof fn lemma_copied_atop(earlier: Seq<u8>, history: Seq<u8>, dist: int, len: nat)
    requires
        1 <= dist <= history.len(),
    ensures
        copied(earlier + history, dist, len) == earlier + copied(history, dist, len),
    decreases len,
{
    if len > 0 {
        lemma_copied_atop(earlier, history, dist, (len - 1) as nat);
        lemma_copied(history, dist, (len - 1) as nat);
        let shorter = copied(history, dist, (len - 1) as nat);
        let all = earlier + shorter;
        assert(all.push(all[all.len() - dist]) =~= earlier + shorter.push(shorter[shorter.len() - dist]));
    }
}

/// What holds of a step that one of two outputs takes.
spec fn shared(a: Setup, b: Setup, earlier: Seq<u8>, p: Progress) -> bool {
    &&& as_roomy(a.terms, b.terms, (earlier.len() + p.out.len()) as int)
    &&& p.state matches State::Failed(error) ==> inherent(a, b, earlier, error)
}

proof fn lemma_byte_atop(
    a: Setup,
    b: Setup,
    earlier: Seq<u8>,
    p: Progress,
    q: Progress,
    byte: u8,
    pos: int,
    state: State,
)
    requires
        on_top(a.kind, earlier, p, q),
        sums(a.kind, state) ==> sums(a.kind, p.state),
        state !is Checksum && state !is Size && state !is Failed,
        shared(a, b, earlier, with_byte(a, p, byte, pos, state)),
    ensures
        on_top(a.kind, earlier, with_byte(a, p, byte, pos, state), with_byte(b, q, byte, pos, state)),
{
    assert(q.out.push(byte) =~= earlier + p.out.push(byte));
}

proof fn lemma_copy_atop(
    a: Setup,
    b: Setup,
    earlier: Seq<u8>,
    p: Progress,
    q: Progress,
    dist: int,
    len: int,
    pos: int,
)
    requires
        on_top(a.kind, earlier, p, q),
        p.state is Distance,
        1 <= dist <= 32768,
        0 <= len,
        shared(a, b, earlier, with_copy(a, p, dist, len, pos)),
    ensures
        on_top(a.kind, earlier, with_copy(a, p, dist, len, pos), with_copy(b, q, dist, len, pos)),
{
    lemma_copied(p.out, dist, len as nat);
    if dist <= p.out.len() {
        lemma_copied_atop(earlier, p.out, dist, len as nat);
    } else {
        assert(earlier + p.out =~= p.out);
    }
}

proof fn lemma_verified_atop(
    a: Setup,
    b: Setup,
    earlier: Seq<u8>,
    p: Progress,
    q: Progress,
    sum: int,
    size: int,
    pos: int,
)
    requires
        on_top(a.kind, earlier, p, q),
        p.state is Checksum || p.state is Size,
        b.verify ==> a.verify,
        shared(a, b, earlier, verified(a, p, sum, size, pos)),
    ensures
        on_top(a.kind, earlier, verified(a, p, sum, size, pos), verified(b, q, sum, size, pos)),
{
    assert(q.out.skip(q.start) =~= p.out.skip(p.start));
}

/// Two outputs take the same step, when there is room in the other for what
/// one of them gets.
#[verifier::spinoff_prover]
#[verifier::rlimit(60)]
proof fn lemma_step_atop(a: Setup, b: Setup, data: Seq<u8>, earlier: Seq<u8>, p: Progress, q: Progress)
    requires
        on_top(a.kind, earlier, p, q),
        a.kind == b.kind,
        b.verify ==> a.verify,
        step(a, data, p) matches Some(next) ==> shared(a, b, earlier, next),
    ensures
        match step(a, data, p) {
            None => step(b, data, q) is None,
            Some(next) => step(b, data, q) is Some && on_top(a.kind, earlier, next, step(b, data, q)->0),
        },
{
    match p.state {
        State::Start => {
            lemma_at_start(a, p);
            lemma_at_start(b, q);
        },
        State::Member => {
            lemma_at_member(a, p);
            lemma_at_member(b, q);
        },
        State::Skip(_, _) => {
            lemma_at_skip(a, p);
            lemma_at_skip(b, q);
        },
        State::Fields(_) => {
            lemma_at_fields(a, p);
            lemma_at_fields(b, q);
        },
        State::Block => {
            lemma_at_block(a, p);
            lemma_at_block(b, q);
        },
        State::StoredLen => {
            lemma_at_stored_len(a, p);
            lemma_at_stored_len(b, q);
        },
        State::Stored(bytes) => {
            lemma_at_stored(a, p);
            lemma_at_stored(b, q);
            if bytes > 0 {
                if let Some(byte) = read(data, p.pos, 8) {
                    let state = State::Stored((bytes - 1) as u16);
                    lemma_byte_atop(a, b, earlier, p, q, byte as u8, p.pos + 8, state);
                }
            }
        },
        State::CodeLengths(_) => {
            lemma_at_code_lengths(a, p);
            lemma_at_code_lengths(b, q);
        },
        State::Lengths(_) => {
            lemma_at_lengths(a, p);
            lemma_at_lengths(b, q);
        },
        State::Length => {
            lemma_at_length(a, p);
            lemma_at_length(b, q);
            if let Found::Symbol(sym, n) = symbol_at(p.len_code, data, p.pos) {
                if sym < 256 {
                    lemma_byte_atop(a, b, earlier, p, q, sym as u8, p.pos + n, State::Length);
                }
            }
        },
        State::Distance(len) => {
            lemma_at_distance(a, p);
            lemma_at_distance(b, q);
            lemma_symbol_bits(p.dist_code, data, p.pos, 1);
            if let Found::Symbol(sym, n) = symbol_at(p.dist_code, data, p.pos) {
                if sym <= 29 {
                    let extra = dist_extra(sym);
                    if let Some(more) = read(data, p.pos + n, extra) {
                        lemma_read_bound(data, p.pos + n, extra);
                        lemma_dist_range(sym, more);
                        lemma_copy_atop(
                            a,
                            b,
                            earlier,
                            p,
                            q,
                            dist_base(sym) + more,
                            len as int,
                            p.pos + n + extra,
                        );
                    }
                }
            }
        },
        State::Checksum => {
            lemma_at_checksum(a, p);
            lemma_at_checksum(b, q);
            if let Some(sum) = read(data, p.pos, 32) {
                if !p.gzip {
                    lemma_verified_atop(a, b, earlier, p, q, sum as int, 0, p.pos + 32);
                }
            }
        },
        State::Size(sum) => {
            lemma_at_size(a, p);
            lemma_at_size(b, q);
            if let Some(size) = read(data, p.pos, 32) {
                lemma_verified_atop(a, b, earlier, p, q, sum as int, size as int, p.pos + 32);
            }
        },
        State::Next => {
            lemma_at_next(a, p);
            lemma_at_next(b, q);
        },
        _ => {
            lemma_at_end(a, p);
            lemma_at_end(b, q);
        },
    }
}

/// Two outputs come to the same, when there is room in the other for what one
/// of them gets.
pub proof fn lemma_advance_atop(
    a: Setup,
    b: Setup,
    data: Seq<u8>,
    earlier: Seq<u8>,
    p: Progress,
    q: Progress,
)
    requires
        0 <= p.pos,
        on_top(a.kind, earlier, p, q),
        a.kind == b.kind,
        b.verify ==> a.verify,
        as_roomy(a.terms, b.terms, (earlier.len() + advance(a, data, p).out.len()) as int),
        advance(a, data, p).state matches State::Failed(error) ==> inherent(a, b, earlier, error),
    ensures
        on_top(a.kind, earlier, advance(a, data, p), advance(b, data, q)),
    decreases bits_left(data, p), rank(p.state),
{
    reveal(advance);
    if let Some(next) = step(a, data, p) {
        lemma_step_forward(a, data, p);
        lemma_step_shrinks(a, data, p);
        lemma_advance_forward(a, data, next);
        if next.state is Failed {
            lemma_halted_stays(a, data, next);
        }
        lemma_step_atop(a, b, data, earlier, p, q);
        lemma_advance_atop(a, b, data, earlier, next, step(b, data, q)->0);
    } else {
        lemma_step_atop(a, b, data, earlier, p, q);
    }
}

/// Whether two states of decoding differ in no more than their marks.
pub open spec fn alike(p: Progress, q: Progress) -> bool {
    q == Progress { marks: q.marks, ..p }
}

/// Marks make no difference to a step.
#[verifier::spinoff_prover]
#[verifier::rlimit(60)]
proof fn lemma_step_alike(setup: Setup, data: Seq<u8>, p: Progress, q: Progress)
    requires
        alike(p, q),
    ensures
        match step(setup, data, p) {
            None => step(setup, data, q) is None,
            Some(next) => step(setup, data, q) is Some && alike(next, step(setup, data, q)->0),
        },
{
    match p.state {
        State::Start => {
            lemma_at_start(setup, p);
            lemma_at_start(setup, q);
        },
        State::Member => {
            lemma_at_member(setup, p);
            lemma_at_member(setup, q);
        },
        State::Skip(_, _) => {
            lemma_at_skip(setup, p);
            lemma_at_skip(setup, q);
        },
        State::Fields(_) => {
            lemma_at_fields(setup, p);
            lemma_at_fields(setup, q);
        },
        State::Block => {
            lemma_at_block(setup, p);
            lemma_at_block(setup, q);
        },
        State::StoredLen => {
            lemma_at_stored_len(setup, p);
            lemma_at_stored_len(setup, q);
        },
        State::Stored(_) => {
            lemma_at_stored(setup, p);
            lemma_at_stored(setup, q);
        },
        State::CodeLengths(_) => {
            lemma_at_code_lengths(setup, p);
            lemma_at_code_lengths(setup, q);
        },
        State::Lengths(_) => {
            lemma_at_lengths(setup, p);
            lemma_at_lengths(setup, q);
        },
        State::Length => {
            lemma_at_length(setup, p);
            lemma_at_length(setup, q);
        },
        State::Distance(_) => {
            lemma_at_distance(setup, p);
            lemma_at_distance(setup, q);
        },
        State::Checksum => {
            lemma_at_checksum(setup, p);
            lemma_at_checksum(setup, q);
        },
        State::Size(_) => {
            lemma_at_size(setup, p);
            lemma_at_size(setup, q);
        },
        State::Next => {
            lemma_at_next(setup, p);
            lemma_at_next(setup, q);
        },
        _ => {
            lemma_at_end(setup, p);
            lemma_at_end(setup, q);
        },
    }
}

/// Marks make no difference to decoding.
pub proof fn lemma_advance_alike(setup: Setup, data: Seq<u8>, p: Progress, q: Progress)
    requires
        alike(p, q),
    ensures
        alike(advance(setup, data, p), advance(setup, data, q)),
    decreases bits_left(data, p), rank(p.state),
{
    reveal(advance);
    lemma_step_alike(setup, data, p, q);
    if let Some(next) = step(setup, data, p) {
        lemma_step_shrinks(setup, data, p);
        lemma_advance_alike(setup, data, next, step(setup, data, q)->0);
    }
}

/// A step does not fail for want of a window that is as large as the output.
#[verifier::spinoff_prover]
#[verifier::rlimit(30)]
proof fn lemma_step_window(setup: Setup, data: Seq<u8>, p: Progress)
    requires
        p.out.len() <= setup.terms.most <= setup.terms.reach,
        step(setup, data, p) is Some,
    ensures
        step(setup, data, p)->0.state != State::Failed(Error::WindowTooSmall),
{
    match p.state {
        State::Start => {
            lemma_at_start(setup, p);
        },
        State::Member => {
            lemma_at_member(setup, p);
        },
        State::Skip(_, _) => {
            lemma_at_skip(setup, p);
        },
        State::Fields(_) => {
            lemma_at_fields(setup, p);
        },
        State::Block => {
            lemma_at_block(setup, p);
        },
        State::StoredLen => {
            lemma_at_stored_len(setup, p);
        },
        State::Stored(_) => {
            lemma_at_stored(setup, p);
        },
        State::CodeLengths(_) => {
            lemma_at_code_lengths(setup, p);
        },
        State::Lengths(_) => {
            lemma_at_lengths(setup, p);
        },
        State::Length => {
            lemma_at_length(setup, p);
        },
        State::Distance(_) => {
            lemma_at_distance(setup, p);
        },
        State::Checksum => {
            lemma_at_checksum(setup, p);
        },
        State::Size(_) => {
            lemma_at_size(setup, p);
        },
        State::Next => {
            lemma_at_next(setup, p);
        },
        _ => {
            lemma_at_end(setup, p);
        },
    }
}

/// Nothing fails for want of a window that is as large as the output.
pub proof fn lemma_advance_window(setup: Setup, data: Seq<u8>, p: Progress)
    requires
        orderly(setup, p),
        setup.terms.most <= setup.terms.reach,
        p.state != State::Failed(Error::WindowTooSmall),
    ensures
        advance(setup, data, p).state != State::Failed(Error::WindowTooSmall),
    decreases bits_left(data, p), rank(p.state),
{
    reveal(advance);
    if let Some(next) = step(setup, data, p) {
        lemma_step_window(setup, data, p);
        lemma_step_shrinks(setup, data, p);
        lemma_step_orderly(setup, data, p);
        lemma_advance_window(setup, data, next);
    }
}

/// A step that outputs more than another output takes fails there.
#[verifier::spinoff_prover]
#[verifier::rlimit(60)]
proof fn lemma_step_full(a: Setup, b: Setup, data: Seq<u8>, p: Progress, q: Progress)
    requires
        on_top(a.kind, Seq::empty(), p, q),
        a.kind == b.kind,
        0 <= b.terms.most <= b.terms.reach,
        p.out.len() <= b.terms.most,
        step(a, data, p) matches Some(next) && next.state !is Failed && next.out.len() > b.terms.most,
    ensures
        step(b, data, q) matches Some(next) && next.state == State::Failed(Error::OutputFull),
{
    assert(q.out =~= p.out);
    match p.state {
        State::Start => {
            lemma_at_start(a, p);
        },
        State::Member => {
            lemma_at_member(a, p);
        },
        State::Skip(_, _) => {
            lemma_at_skip(a, p);
        },
        State::Fields(_) => {
            lemma_at_fields(a, p);
        },
        State::Block => {
            lemma_at_block(a, p);
        },
        State::StoredLen => {
            lemma_at_stored_len(a, p);
        },
        State::Stored(_) => {
            lemma_at_stored(a, p);
            lemma_at_stored(b, q);
        },
        State::CodeLengths(_) => {
            lemma_at_code_lengths(a, p);
        },
        State::Lengths(_) => {
            lemma_at_lengths(a, p);
        },
        State::Length => {
            lemma_at_length(a, p);
            lemma_at_length(b, q);
        },
        State::Distance(len) => {
            lemma_at_distance(a, p);
            lemma_at_distance(b, q);
            if let Found::Symbol(sym, n) = symbol_at(p.dist_code, data, p.pos) {
                if sym <= 29 {
                    if let Some(more) = read(data, p.pos + n, dist_extra(sym)) {
                        lemma_copied(p.out, dist_base(sym) + more, len as nat);
                    }
                }
            }
        },
        State::Checksum => {
            lemma_at_checksum(a, p);
        },
        State::Size(_) => {
            lemma_at_size(a, p);
        },
        State::Next => {
            lemma_at_next(a, p);
        },
        _ => {
            lemma_at_end(a, p);
        },
    }
}

/// A stream that is longer than another output takes fails there, for want of
/// room.
pub proof fn lemma_advance_full(a: Setup, b: Setup, data: Seq<u8>, p: Progress, q: Progress)
    requires
        0 <= p.pos,
        on_top(a.kind, Seq::empty(), p, q),
        a.kind == b.kind,
        b.verify ==> a.verify,
        0 <= b.terms.most <= b.terms.reach,
        p.out.len() <= b.terms.most,
        advance(a, data, p).state !is Failed,
        advance(a, data, p).out.len() > b.terms.most,
    ensures
        advance(b, data, q).state == State::Failed(Error::OutputFull),
    decreases bits_left(data, p), rank(p.state),
{
    reveal(advance);
    let next = step(a, data, p)->0;
    lemma_step_forward(a, data, p);
    lemma_step_shrinks(a, data, p);
    if next.state is Failed {
        lemma_halted_stays(a, data, next);
    }
    if next.out.len() > b.terms.most {
        lemma_step_full(a, b, data, p, q);
        lemma_halted_stays(b, data, step(b, data, q)->0);
    } else {
        lemma_step_atop(a, b, data, Seq::empty(), p, q);
        lemma_advance_full(a, b, data, next, step(b, data, q)->0);
    }
}

} // verus!
