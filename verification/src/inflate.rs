//! The deflate decoder (RFC 1951).
//!
//! Huffman codes are decoded canonically, one bit at a time, from a count of
//! codes per length and a list of symbols sorted by code, in the manner of
//! zlib's `puff`. This is slower than table lookups but needs very little
//! code and memory.

use vstd::bits::lemma_u32_shl_is_mul;
use vstd::prelude::*;

use crate::bits::{align, number};
use crate::checksum::Checksum;
use crate::course::{
    at_marks, in_step, lemma_in_step_joined, lemma_in_step_nothing, made, told, Moment,
};
use crate::decoding::{
    block_ended, fixed_dist_code, fixed_len_code, lemma_at_block, lemma_at_code_lengths,
    lemma_at_distance, lemma_at_length, lemma_at_lengths, lemma_at_stored, lemma_at_stored_len,
    orderly, placed, read, step, with_lengths, Progress, Setup, State, ORDER,
};
use crate::error::Error;
use crate::huffman::{complete, permitted, Huffman};
use crate::input::Input;
use crate::output::{copy_refused, lemma_copy_longer, same_output, Output};
use crate::reader::{
    goes_on, lemma_moved_joined, lemma_moved_nothing, moved, starved, Inflate, Stop,
};
use crate::steps::{lemma_dist_range, lemma_length_range, lemma_small_powers};

verus! {

/// The kinds of blocks, as their headers tell.
#[derive(Clone, Copy)]
pub enum Block {
    Stored,
    Fixed,
    /// How many literal/length, distance and code length symbols there are.
    Dynamic(usize, usize, usize),
}

impl Block {
    /// What comes after the header.
    pub open spec fn state(self) -> State {
        match self {
            Block::Stored => State::StoredLen,
            Block::Fixed => State::Length,
            Block::Dynamic(_, _, _) => State::CodeLengths(0),
        }
    }
}

/// What a literal/length symbol stands for.
#[derive(Clone, Copy)]
pub enum Symbol {
    /// A literal, which was output.
    Literal,
    /// The end of the block.
    End,
    /// A match of this length.
    Match(u32),
}

/// What it takes to end a block, having got as far as `p`.
pub open spec fn closed<I: Input, O: Output, C: Checksum>(
    setup: Setup,
    p: Progress,
    m: Moment<I, O, C>,
    n: Moment<I, O, C>,
    r: Result<State, Stop>,
) -> bool {
    &&& same_output(m.out, n.out)
    &&& moved(m.reader, m.input, n.reader, n.input)
    &&& n.reader.taken@ == m.reader.taken@
    &&& n.out.history() == m.out.history()
    &&& at_marks(m.out, n.out, block_ended(setup, p))
    &&& match r {
        Ok(state) => {
            &&& block_ended(setup, p).state == state
            &&& block_ended(setup, p).pos == n.reader.pos()
            &&& in_step(m, n)
            &&& p.last ==> n.out.checked() == n.out.history().len()
        },
        Err(Stop::Input(_)) => false,
        Err(Stop::Fail(error)) => m.out.faults().contains(error) && m.out.checked() < m.out.history().len(),
    }
}

/// A step that comes to the end of a block.
pub proof fn lemma_closed_made<I: Input, O: Output, C: Checksum>(
    setup: Setup,
    p: Progress,
    m: Moment<I, O, C>,
    n: Moment<I, O, C>,
    o: Moment<I, O, C>,
    r: Result<State, Stop>,
)
    requires
        m.at(setup, p),
        moved(m.reader, m.input, n.reader, n.input),
        n.out == m.out,
        n.check == m.check,
        step(setup, n.reader.taken@, p) == Some(
            block_ended(setup, (Progress { pos: n.reader.pos(), ..p })),
        ),
        closed(setup, Progress { pos: n.reader.pos(), ..p }, n, o, r),
    ensures
        made(setup, p, m, o, r),
{
    lemma_moved_joined(m.reader, m.input, n.reader, n.input, o.reader, o.input);
    lemma_in_step_nothing(m, n);
    if r is Ok {
        lemma_in_step_joined(m, n, o);
    }
}

impl Inflate {
    /// Reads how many literal/length, distance and code length symbols a
    /// dynamic block defines.
    fn dynamic_head<I: Input>(&mut self, input: &mut I, Ghost(first): Ghost<(Inflate, I)>) -> (r: Result<
        (usize, usize, usize),
        Stop,
    >)
        requires
            moved(first.0, first.1, *old(self), *old(input)),
        ensures
            &*final((*final(input)).place()) == &*final((*old(input)).place()),
            goes_on(old(self).taken@, final(self).taken@),
            ({
                let (data, pos) = (final(self).taken@, old(self).pos());
                match r {
                    Ok((len_syms, dist_syms, code_syms)) => {
                        &&& moved(first.0, first.1, *final(self), *final(input))
                        &&& final(self).pos() == pos + 14
                        &&& 257 <= len_syms <= 288
                        &&& 1 <= dist_syms <= 32
                        &&& 4 <= code_syms <= 19
                        &&& read(data, pos, 5) == Some((len_syms - 257) as nat)
                        &&& read(data, pos + 5, 5) == Some((dist_syms - 1) as nat)
                        &&& read(data, pos + 10, 4) == Some((code_syms - 4) as nat)
                    },
                    Err(Stop::Input(error)) => {
                        &&& starved(first.0, first.1, *final(self), *final(input), error)
                        &&& read(data, pos, 5) is None || read(data, pos + 5, 5) is None || read(
                            data,
                            pos + 10,
                            4,
                        ) is None
                    },
                    Err(Stop::Fail(_)) => false,
                }
            }),
    {
        proof {
            lemma_small_powers();
        }
        let a: u16 = self.next_bits(input, 5, Ghost(first))?;
        let b: u16 = self.next_bits(input, 5, Ghost(first))?;
        let c: u16 = self.next_bits(input, 4, Ghost(first))?;
        Ok((a as usize + 257, b as usize + 1, c as usize + 4))
    }

    /// Reads the header of a block, and whether it is the last.
    pub fn block_head<I: Input>(
        &mut self,
        input: &mut I,
        Ghost(setup): Ghost<Setup>,
        Ghost(p): Ghost<Progress>,
    ) -> (r: Result<(bool, Block), Stop>)
        requires
            old(self).sound(),
            (*old(input)).ready(),
            p.pos == old(self).pos(),
            p.state is Block,
        ensures
            &*final((*final(input)).place()) == &*final((*old(input)).place()),
            told(
                setup,
                p,
                *old(self),
                *old(input),
                *final(self),
                *final(input),
                match r {
                    Ok((_, block)) => Ok(block.state()),
                    Err(stop) => Err(stop),
                },
            ),
            match r {
                Ok((last, block)) => {
                    let q = step(setup, final(self).taken@, p)->0;
                    &&& q.last == last
                    &&& old(self).pos() + 3 <= final(self).pos()
                    &&& match block {
                        Block::Dynamic(len_syms, dist_syms, code_syms) => {
                            &&& q.len_syms == len_syms
                            &&& q.syms == len_syms + dist_syms
                            &&& q.code_syms == code_syms
                            &&& 257 <= len_syms <= 286
                            &&& 1 <= dist_syms <= 30
                            &&& 4 <= code_syms <= 19
                        },
                        _ => true,
                    }
                },
                Err(_) => true,
            },
    {
        proof {
            lemma_at_block(setup, p);
        }
        let ghost first = (*self, *input);
        proof {
            lemma_moved_nothing(*self, *input);
            lemma_small_powers();
        }
        let last: bool = self.next_bits(input, 1, Ghost(first))? != 0;
        let kind: u16 = self.next_bits(input, 2, Ghost(first))?;
        if kind == 0 {
            let ghost before = *self;
            self.align();
            proof {
                lemma_aligned(before, *input, *self);
                lemma_moved_joined(first.0, first.1, before, *input, *self, *input);
            }
            Ok((last, Block::Stored))
        } else if kind == 1 {
            Ok((last, Block::Fixed))
        } else if kind == 2 {
            let (len_syms, dist_syms, code_syms) = self.dynamic_head(input, Ghost(first))?;
            if len_syms > 286 || dist_syms > 30 {
                return Err(Stop::Fail(Error::InvalidBlock));
            }
            Ok((last, Block::Dynamic(len_syms, dist_syms, code_syms)))
        } else {
            Err(Stop::Fail(Error::InvalidBlock))
        }
    }

    /// Reads the length of a stored block, on a byte boundary.
    pub fn stored_len<I: Input>(
        &mut self,
        input: &mut I,
        Ghost(setup): Ghost<Setup>,
        Ghost(p): Ghost<Progress>,
    ) -> (r: Result<u16, Stop>)
        requires
            old(self).sound(),
            (*old(input)).ready(),
            p.pos == old(self).pos(),
            p.state is StoredLen,
        ensures
            &*final((*final(input)).place()) == &*final((*old(input)).place()),
            told(
                setup,
                p,
                *old(self),
                *old(input),
                *final(self),
                *final(input),
                match r {
                    Ok(len) => Ok(State::Stored(len)),
                    Err(stop) => Err(stop),
                },
            ),
    {
        proof {
            lemma_at_stored_len(setup, p);
        }
        let ghost first = (*self, *input);
        proof {
            lemma_moved_nothing(*self, *input);
        }
        let len: u16 = self.next_bits(input, 16, Ghost(first))?;
        let complement: u16 = self.next_bits(input, 16, Ghost(first))?;
        assert(!len == 0xffff - len) by (bit_vector);
        if complement != !len {
            return Err(Stop::Fail(Error::InvalidBlock));
        }
        Ok(len)
    }

    /// Copies a byte of a stored block to the output.
    pub fn stored_byte<I: Input, O: Output, C: Checksum>(
        &mut self,
        input: &mut I,
        out: &mut O,
        check: &mut C,
        Ghost(setup): Ghost<Setup>,
        Ghost(p): Ghost<Progress>,
    ) -> (r: Result<(), Stop>)
        requires
            (Moment { reader: *old(self), input: *old(input), out: *old(out), check: *old(check) }).at(setup, p),
            p.state is Stored,
            p.state->Stored_0 > 0,
        ensures
            &*final((*final(out)).place()) == &*final((*old(out)).place()),
            &*final((*final(input)).place()) == &*final((*old(input)).place()),
            made(
                setup,
                p,
                Moment { reader: *old(self), input: *old(input), out: *old(out), check: *old(check) },
                Moment { reader: *final(self), input: *final(input), out: *final(out), check: *final(check) },
                match r {
                    Ok(_) => Ok(State::Stored((p.state->Stored_0 - 1) as u16)),
                    Err(stop) => Err(stop),
                },
            ),
    {
        proof {
            lemma_at_stored(setup, p);
        }
        let ghost first = (*self, *input);
        proof {
            lemma_moved_nothing(*self, *input);
            lemma_small_powers();
            (*out).bounds();
        }
        let byte: u8 = self.next_bits(input, 8, Ghost(first))? as u8;
        match out.put(byte, check) {
            Ok(()) => Ok(()),
            Err(error) => Err(Stop::Fail(error)),
        }
    }

    /// Reads a literal/length symbol, and outputs it if it is a literal.
    pub fn length<I: Input, O: Output, C: Checksum>(
        &mut self,
        input: &mut I,
        out: &mut O,
        check: &mut C,
        table: &Huffman<288>,
        Ghost(setup): Ghost<Setup>,
        Ghost(p): Ghost<Progress>,
    ) -> (r: Result<Symbol, Stop>)
        requires
            (Moment { reader: *old(self), input: *old(input), out: *old(out), check: *old(check) }).at(setup, p),
            p.state is Length,
            table.is(p.len_code),
        ensures
            &*final((*final(out)).place()) == &*final((*old(out)).place()),
            &*final((*final(input)).place()) == &*final((*old(input)).place()),
            ({
                let m = Moment { reader: *old(self), input: *old(input), out: *old(out), check: *old(check) };
                let n = Moment {
                    reader: *final(self),
                    input: *final(input),
                    out: *final(out),
                    check: *final(check),
                };
                match r {
                    Ok(Symbol::Literal) => {
                        &&& made(setup, p, m, n, Ok(State::Length))
                        &&& old(self).pos() < final(self).pos()
                    },
                    Ok(Symbol::Match(len)) => {
                        &&& made(setup, p, m, n, Ok(State::Distance(len)))
                        &&& old(self).pos() < final(self).pos()
                        &&& 3 <= len <= 258
                    },
                    Ok(Symbol::End) => {
                        &&& moved(m.reader, m.input, n.reader, n.input)
                        &&& old(self).pos() < final(self).pos()
                        &&& n.out == m.out
                        &&& n.check == m.check
                        &&& step(setup, n.reader.taken@, p) == Some(
                            block_ended(setup, (Progress { pos: n.reader.pos(), ..p })),
                        )
                    },
                    Err(stop) => made(setup, p, m, n, Err(stop)),
                }
            }),
    {
        proof {
            lemma_at_length(setup, p);
        }
        let ghost first = (*self, *input);
        let sym: u16 = self.decode(input, table, Ghost(p.len_code))?;
        proof {
            lemma_in_step_nothing(
                Moment { reader: first.0, input: first.1, out: *old(out), check: *old(check) },
                Moment { reader: *self, input: *input, out: *out, check: *check },
            );
        }
        proof {
            (*out).bounds();
        }
        if sym < 256 {
            return match out.put(sym as u8, check) {
                Ok(()) => Ok(Symbol::Literal),
                Err(error) => Err(Stop::Fail(error)),
            };
        }
        if sym == 256 {
            return Ok(Symbol::End);
        }
        // Lengths from 3 to 258, four symbols for each count of extra bits,
        // except at both ends.
        let s: u32 = sym as u32 - 257;
        if s > 28 {
            return Err(Stop::Fail(Error::InvalidCode));
        }
        proof {
            lemma_small_powers();
            assert(number(self.taken@, self.pos(), 0) == 0);
        }
        if s < 4 {
            Ok(Symbol::Match(s + 3))
        } else if s == 28 {
            Ok(Symbol::Match(258))
        } else {
            let extra: u32 = (s - 4) / 4;
            let more: u16 = self.next_bits(input, extra, Ghost(first))?;
            proof {
                lemma_length_range(s as int, more as nat);
                lemma_u32_shl_is_mul((4 + s % 4) as u32, extra);
            }
            Ok(Symbol::Match(((4 + s % 4) << extra) + 3 + more as u32))
        }
    }

    /// Reads the distance of a match, and outputs that match.
    pub fn distance<I: Input, O: Output, C: Checksum>(
        &mut self,
        input: &mut I,
        out: &mut O,
        check: &mut C,
        table: &Huffman<32>,
        len: u32,
        Ghost(setup): Ghost<Setup>,
        Ghost(p): Ghost<Progress>,
    ) -> (r: Result<(), Stop>)
        requires
            (Moment { reader: *old(self), input: *old(input), out: *old(out), check: *old(check) }).at(setup, p),
            p.state == State::Distance(len),
            table.is(p.dist_code),
        ensures
            &*final((*final(out)).place()) == &*final((*old(out)).place()),
            &*final((*final(input)).place()) == &*final((*old(input)).place()),
            made(
                setup,
                p,
                Moment { reader: *old(self), input: *old(input), out: *old(out), check: *old(check) },
                Moment { reader: *final(self), input: *final(input), out: *final(out), check: *final(check) },
                match r {
                    Ok(_) => Ok(State::Length),
                    Err(stop) => Err(stop),
                },
            ),
    {
        proof {
            lemma_at_distance(setup, p);
        }
        let ghost first = (*self, *input);
        let sym: u16 = self.decode(input, table, Ghost(p.dist_code))?;
        // Distances from 1 to 32768, two symbols for each count of extra
        // bits.
        let s: u32 = sym as u32;
        if s > 29 {
            return Err(Stop::Fail(Error::InvalidCode));
        }
        proof {
            lemma_small_powers();
            assert(number(self.taken@, self.pos(), 0) == 0);
            lemma_dist_range(s as int, 0);
        }
        let dist: u32 = if s < 2 {
            s + 1
        } else {
            let extra: u32 = (s - 2) / 2;
            let more: u16 = self.next_bits(input, extra, Ghost(first))?;
            proof {
                lemma_dist_range(s as int, more as nat);
                lemma_u32_shl_is_mul((2 + s % 2) as u32, extra);
            }
            ((2 + s % 2) << extra) + 1 + more as u32
        };
        proof {
            (*out).bounds();
            if !copy_refused(setup.terms, p.out, dist as int, len as int) {
                lemma_copy_longer(setup.terms, p.out, dist as int, len as int);
            }
        }
        match out.copy(dist as usize, len as usize, check) {
            Ok(()) => Ok(()),
            Err(error) => Err(Stop::Fail(error)),
        }
    }

    /// Ends a block, and the deflate stream if this was its last, leaving the
    /// input on a byte boundary and the output flushed for its checksum.
    pub fn block_end<I: Input, O: Output, C: Checksum>(
        &mut self,
        input: &mut I,
        out: &mut O,
        check: &mut C,
        last: bool,
        raw: bool,
        Ghost(setup): Ghost<Setup>,
        Ghost(p): Ghost<Progress>,
    ) -> (r: Result<State, Stop>)
        requires
            (Moment { reader: *old(self), input: *old(input), out: *old(out), check: *old(check) }).at(setup, p),
            last == p.last,
            raw == (setup.kind is Raw),
        ensures
            &*final((*final(out)).place()) == &*final((*old(out)).place()),
            &*final((*final(input)).place()) == &*final((*old(input)).place()),
            closed(
                setup,
                p,
                Moment { reader: *old(self), input: *old(input), out: *old(out), check: *old(check) },
                Moment { reader: *final(self), input: *final(input), out: *final(out), check: *final(check) },
                r,
            ),
    {
        let ghost before = *self;
        proof {
            lemma_moved_nothing(*self, *input);
            lemma_in_step_nothing(
                Moment { reader: *self, input: *input, out: *out, check: *check },
                Moment { reader: *self, input: *input, out: *out, check: *check },
            );
        }
        if !last {
            return Ok(State::Block);
        }
        self.align();
        proof {
            lemma_aligned(before, *input, *self);
            (*out).bounds();
        }
        match out.flush(check) {
            Ok(()) => if raw {
                Ok(State::Done)
            } else {
                Ok(State::Checksum)
            },
            Err(error) => Err(Stop::Fail(error)),
        }
    }

    /// Reads a length of the code length code, and stores it where it goes.
    pub fn code_length<I: Input>(
        &mut self,
        input: &mut I,
        lengths: &mut [u8; 320],
        index: usize,
        Ghost(setup): Ghost<Setup>,
        Ghost(p): Ghost<Progress>,
    ) -> (r: Result<(), Stop>)
        requires
            old(self).sound(),
            (*old(input)).ready(),
            p.pos == old(self).pos(),
            p.state == State::CodeLengths(index),
            orderly(setup, p),
            index < p.code_syms,
            old(lengths)@.take(19) == placed(p.lengths, p.lengths.len()),
        ensures
            &*final((*final(input)).place()) == &*final((*old(input)).place()),
            told(
                setup,
                p,
                *old(self),
                *old(input),
                *final(self),
                *final(input),
                match r {
                    Ok(_) => Ok(State::CodeLengths((index + 1) as usize)),
                    Err(stop) => Err(stop),
                },
            ),
            match r {
                Ok(_) => {
                    let stored = step(setup, final(self).taken@, p)->0.lengths;
                    final(lengths)@.take(19) == placed(stored, stored.len())
                },
                Err(_) => final(lengths)@ == old(lengths)@,
            },
    {
        proof {
            lemma_at_code_lengths(setup, p);
        }
        let ghost first = (*self, *input);
        proof {
            lemma_moved_nothing(*self, *input);
            lemma_small_powers();
            lemma_order_bound(index as int);
        }
        let len: u16 = self.next_bits(input, 3, Ghost(first))?;
        lengths[ORDER[index] as usize] = len as u8;
        proof {
            let stored = p.lengths.push(len as u8);
            lemma_placed_prefix(p.lengths, stored, index as nat);
            assert(lengths@.take(19) =~= old(lengths)@.take(19).update(ORDER@[index as int] as int, len as u8));
        }
        Ok(())
    }

    /// Reads a code length symbol, given the code length before it. Returns
    /// the code length that it stands for, and how many times.
    fn code_length_run<I: Input>(
        &mut self,
        input: &mut I,
        table: &Huffman<288>,
        previous: Option<u8>,
        Ghost(setup): Ghost<Setup>,
        Ghost(p): Ghost<Progress>,
    ) -> (r: Result<(u8, usize), Stop>)
        requires
            old(self).sound(),
            (*old(input)).ready(),
            p.pos == old(self).pos(),
            p.state is Lengths,
            orderly(setup, p),
            table.is(p.len_code),
            p.lengths.len() < p.syms,
            previous == (if p.lengths.len() == 0 {
                None
            } else {
                Some(p.lengths.last())
            }),
        ensures
            &*final((*final(input)).place()) == &*final((*old(input)).place()),
            match r {
                Ok((len, times)) => {
                    &&& moved(*old(self), *old(input), *final(self), *final(input))
                    &&& step(setup, final(self).taken@, p) == Some(
                        with_lengths(p, len, times as nat, final(self).pos()),
                    )
                    &&& 1 <= times <= 138
                },
                Err(stop) => told(setup, p, *old(self), *old(input), *final(self), *final(input), Err(stop)),
            },
    {
        proof {
            lemma_at_lengths(setup, p);
        }
        let ghost first = (*self, *input);
        proof {
            lemma_small_powers();
        }
        let sym: u16 = self.decode(input, table, Ghost(p.len_code))?;
        if sym < 16 {
            Ok((sym as u8, 1))
        } else if sym == 16 {
            match previous {
                None => Err(Stop::Fail(Error::InvalidCode)),
                Some(len) => {
                    let more: u16 = self.next_bits(input, 2, Ghost(first))?;
                    Ok((len, 3 + more as usize))
                },
            }
        } else if sym == 17 {
            let more: u16 = self.next_bits(input, 3, Ghost(first))?;
            Ok((0, 3 + more as usize))
        } else {
            let more: u16 = self.next_bits(input, 7, Ghost(first))?;
            Ok((0, 11 + more as usize))
        }
    }

    /// Reads a code length symbol, and stores the code lengths that it stands
    /// for. Returns where the next ones go.
    pub fn code_lengths<I: Input>(
        &mut self,
        input: &mut I,
        table: &Huffman<288>,
        lengths: &mut [u8; 320],
        index: usize,
        syms: usize,
        Ghost(setup): Ghost<Setup>,
        Ghost(p): Ghost<Progress>,
    ) -> (r: Result<usize, Stop>)
        requires
            old(self).sound(),
            (*old(input)).ready(),
            p.pos == old(self).pos(),
            p.state == State::Lengths(index),
            orderly(setup, p),
            table.is(p.len_code),
            syms == p.syms,
            index < syms,
            old(lengths)@.take(index as int) == p.lengths,
        ensures
            &*final((*final(input)).place()) == &*final((*old(input)).place()),
            told(
                setup,
                p,
                *old(self),
                *old(input),
                *final(self),
                *final(input),
                match r {
                    Ok(end) => Ok(State::Lengths(end)),
                    Err(stop) => Err(stop),
                },
            ),
            match r {
                Ok(end) => {
                    &&& index < end <= syms
                    &&& final(lengths)@.take(end as int) == step(setup, final(self).taken@, p)->0.lengths
                    &&& step(setup, final(self).taken@, p)->0.len_code == p.len_code
                },
                Err(_) => final(lengths)@ == old(lengths)@,
            },
    {
        proof {
            lemma_at_lengths(setup, p);
        }
        let previous: Option<u8> = if index == 0 {
            None
        } else {
            assert(lengths@[index - 1] == p.lengths.last());
            Some(lengths[index - 1])
        };
        let (len, repeat): (u8, usize) = self.code_length_run(input, table, previous, Ghost(setup), Ghost(p))?;
        let end: usize = index + repeat;
        if end > syms {
            return Err(Stop::Fail(Error::InvalidCode));
        }
        let mut i: usize = index;
        while i < end
            invariant
                &*final((*input).place()) == &*final((*old(input)).place()),
                index <= i <= end <= 320,
                index == p.lengths.len(),
                lengths@.take(index as int) == p.lengths,
                forall|k: int| index <= k < i ==> #[trigger] lengths@[k] == len,
            decreases end - i,
        {
            let ghost before = lengths@;
            lengths[i] = len;
            assert(lengths@.take(index as int) =~= before.take(index as int));
            i += 1;
        }
        proof {
            let more = Seq::new(repeat as nat, |k: int| len);
            assert(lengths@.take(end as int) =~= p.lengths + more) by {
                assert forall|k: int| 0 <= k < end implies lengths@.take(end as int)[k] == (p.lengths + more)[k] by {
                    if k < index {
                        assert(lengths@.take(index as int)[k] == p.lengths[k]);
                    }
                }
            }
        }
        Ok(end)
    }
}

/// What skipping to a byte boundary takes from the input: nothing.
proof fn lemma_aligned<I: Input>(a: Inflate, input: I, b: Inflate)
    requires
        a.sound(),
        input.ready(),
        b.sound(),
        b.taken@ == a.taken@,
        b.pos() == align(a.pos()),
        b.bit_cnt <= a.bit_cnt,
        b.left == a.left,
    ensures
        moved(a, input, b, input),
{
    lemma_moved_nothing(a, input);
}

proof fn lemma_order_bound(i: int)
    requires
        0 <= i < 19,
    ensures
        ORDER@[i] < 19,
{
}

/// Which lengths come first is all that matters of those that were stored.
pub proof fn lemma_placed_prefix(stored: Seq<u8>, longer: Seq<u8>, n: nat)
    requires
        n <= stored.len(),
        stored.is_prefix_of(longer),
    ensures
        placed(stored, n) == placed(longer, n),
    decreases n,
{
    if n > 0 {
        lemma_placed_prefix(stored, longer, (n - 1) as nat);
        assert(stored[n - 1] == longer.subrange(0, stored.len() as int)[n - 1]);
    }
}

pub proof fn lemma_placed_bound(stored: Seq<u8>, n: nat)
    requires
        n <= stored.len(),
        n <= 19,
        forall|i: int| 0 <= i < stored.len() ==> #[trigger] stored[i] <= 7,
    ensures
        placed(stored, n).len() == 19,
        forall|s: int| 0 <= s < 19 ==> #[trigger] placed(stored, n)[s] <= 15,
    decreases n,
{
    if n > 0 {
        lemma_placed_bound(stored, (n - 1) as nat);
        lemma_order_bound(n - 1);
        assert(stored[n - 1] <= 7);
    }
}

/// The code lengths of the fixed codes, the literal/length ones first.
pub fn fixed_lengths(lengths: &mut [u8; 320])
    ensures
        final(lengths)@ == fixed_len_code() + fixed_dist_code(),
{
    let mut i: usize = 0;
    while i < 320
        invariant
            i <= 320,
            forall|k: int| 0 <= k < i ==> #[trigger] lengths@[k] == (fixed_len_code() + fixed_dist_code())[k],
        decreases 320 - i,
    {
        lengths[i] = if i < 144 {
            8
        } else if i < 256 {
            9
        } else if i < 280 {
            7
        } else if i < 288 {
            8
        } else {
            // All 32 of them, to make the code complete. The last two are
            // rejected when they come up.
            5
        };
        i += 1;
    }
    assert(lengths@ =~= fixed_len_code() + fixed_dist_code());
}

/// The two codes of a block.
pub struct Tables {
    pub len: Huffman<288>,
    pub dist: Huffman<32>,
}

impl Tables {
    /// Two empty codes, to `build` in place.
    pub fn new() -> (r: Self)
        ensures
            r.len.blank(),
            r.dist.blank(),
    {
        Tables { len: Huffman::new(), dist: Huffman::new() }
    }

    /// Builds the code length code, in place of the literal/length one.
    /// Returns whether it is complete.
    pub fn build_first(&mut self, lengths: &[u8; 320]) -> (r: bool)
        requires
            forall|s: int| 0 <= s < 19 ==> #[trigger] lengths@[s] <= 15,
        ensures
            final(self).len.is(lengths@.take(19)),
            r == complete(lengths@.take(19)),
    {
        let all: &[u8] = vstd::array::array_as_slice(lengths);
        self.len.build(vstd::slice::slice_subrange(all, 0, 19));
        self.len.left == 0
    }

    /// Builds both codes from the code length of each literal/length symbol,
    /// directly followed by those of the distance symbols. Returns whether
    /// both are ones deflate permits.
    pub fn build(&mut self, lengths: &[u8; 320], len_syms: usize, syms: usize) -> (r: bool)
        requires
            len_syms <= 288,
            len_syms <= syms <= len_syms + 32,
            forall|s: int| 0 <= s < syms ==> #[trigger] lengths@[s] <= 15,
        ensures
            final(self).len.is(lengths@.take(len_syms as int)),
            final(self).dist.is(lengths@.subrange(len_syms as int, syms as int)),
            r == (permitted(lengths@.take(len_syms as int)) && permitted(
                lengths@.subrange(len_syms as int, syms as int),
            )),
    {
        let all: &[u8] = vstd::array::array_as_slice(lengths);
        self.len.build(vstd::slice::slice_subrange(all, 0, len_syms));
        self.dist.build(vstd::slice::slice_subrange(all, len_syms, syms));
        self.len.is_valid(len_syms, Ghost(lengths@.take(len_syms as int))) && self.dist.is_valid(
            syms - len_syms,
            Ghost(lengths@.subrange(len_syms as int, syms as int)),
        )
    }
}

} // verus!
