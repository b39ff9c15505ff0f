//! The push decoder: the input comes when it comes, in pieces of any size.
//!
//! The pull decoder keeps its state on the stack, and cannot return for want
//! of input. This one is its loops unrolled into a state machine, each state a
//! step that reads 32 bits at most, over the same primitives. A step is run on
//! whatever input there is. If that runs out midway, nothing was output: the
//! step is rolled back, the few bytes it left unread go into the bit buffer,
//! where they fit, and it is taken again when more input comes.

use vstd::prelude::*;

use crate::bits::bit_len;
use crate::checksum::Checksum;
use crate::course::{
    at_marks, fell, lemma_reaches_longer, lemma_step_reaches, lemma_told_made, made, reaches, told,
    Moment,
};
use crate::decoding::{
    advance, block_ended, fits, fixed_dist_code, fixed_len_code, halted, in_place, lemma_at_block,
    lemma_at_checksum, lemma_at_code_lengths, lemma_at_lengths, lemma_at_next, lemma_at_size,
    lemma_at_start, lemma_at_stored, lemma_step_shrinks, orderly, origin, placed, rank, step,
    step_block, step_code_lengths, step_lengths, verified, within_block, Progress, Setup, State,
};
use crate::error::Error;
use crate::format::Container;
use crate::inflate::{fixed_lengths, lemma_closed_made, lemma_placed_bound, Block, Symbol, Tables};
use crate::input::{Input, INPUT_LIMIT};
use crate::output::{same_output, Output};
use crate::reader::{lemma_moved_nothing, moved, starved, Inflate, Stop};
use crate::steps::{
    lemma_advance_forward, lemma_advance_joined, lemma_advance_marks, lemma_halted_stays,
    lemma_small_powers, lemma_step_forward, lemma_step_keeps, lemma_step_orderly, lemma_step_short,
};

verus! {

/// What is kept from a step to the next, besides the state and the bits that
/// were not read yet.
struct Context {
    /// Whether this is a gzip stream, and where the output was when its
    /// current member started, modulo 2<sup>32</sup> as the length it records.
    gzip: bool,
    start: u32,
    /// Whether the current block is the last.
    last: bool,
    /// How many literal/length symbols, symbols in all, and code length
    /// symbols the current dynamic block defines.
    len_syms: usize,
    syms: usize,
    code_syms: usize,
    /// The code lengths of the current block, while they are being read, then
    /// its two codes. The code length code is built in place of the
    /// literal/length one, until that one is.
    lengths: [u8; 320],
    tables: Tables,
}

/// The checksum of the data so far, as far as the output has passed it on.
spec fn summed<O: Output, F: Container>(p: Progress, out: O, format: F) -> bool {
    O::VERIFY && F::kind() !is Raw && p.state !is Start && p.state !is Member && p.state !is Failed ==> {
        &&& p.start <= out.checked()
        &&& format == F::fresh(p.gzip).absorb(out.history().subrange(p.start, out.checked()))
        &&& p.state is Checksum || p.state is Size ==> out.checked() == out.history().len()
    }
}

/// What a step does, having got as far as `p`, given what is kept after it.
spec fn stepped<I: Input, O: Output, F: Container>(
    setup: Setup,
    p: Progress,
    m: Moment<I, O, F>,
    n: Moment<I, O, F>,
    after: Context,
    r: Result<State, Stop>,
) -> bool {
    let next = step(setup, n.reader.taken@, p);
    &&& same_output(m.out, n.out)
    &&& match r {
        Ok(state) => {
            &&& moved(m.reader, m.input, n.reader, n.input)
            &&& next is Some
            &&& next->0.state == state
            &&& state !is Start
            &&& state !is Failed
            &&& next->0.pos == n.reader.pos()
            &&& next->0.out == n.out.history()
            &&& after.agrees(next->0)
            &&& summed(next->0, n.out, n.check)
            &&& m.out.checked() <= n.out.checked()
            &&& at_marks(m.out, n.out, next->0)
        },
        Err(Stop::Input(error)) => {
            &&& starved(m.reader, m.input, n.reader, n.input, error)
            &&& next is None
            &&& n.out == m.out
            &&& n.check == m.check
            &&& after.agrees(p)
        },
        Err(Stop::Fail(error)) => {
            &&& moved(m.reader, m.input, n.reader, n.input)
            &&& next is Some
            &&& fell(m.out, n.out, n.reader.pos(), next->0, error)
            &&& at_marks(m.out, n.out, next->0)
        },
    }
}

/// Whether the output was only to be delivered where the stream, or a member of
/// it, starts or ends, and then for all there is.
pub open spec fn handed_over<O: Output>(a: O, b: O, end: Progress) -> bool {
    b.flushes().subset_of(a.flushes().union(end.marks).insert(b.history().len() as int))
}

/// A step past the header, which the checksum goes along with.
proof fn lemma_made_stepped<I: Input, O: Output, F: Container>(
    setup: Setup,
    p: Progress,
    m: Moment<I, O, F>,
    n: Moment<I, O, F>,
    after: Context,
    r: Result<State, Stop>,
)
    requires
        m.at(setup, p),
        made(setup, p, m, n, r),
        summed(p, m.out, m.check),
        p.state !is Start,
        p.state !is Member,
        p.state !is Failed,
        r matches Ok(state) ==> state !is Start && state !is Failed,
        r is Ok ==> after.agrees(step(setup, n.reader.taken@, p)->0),
        r matches Err(Stop::Input(_)) ==> after.agrees(p),
        O::VERIFY && F::kind() !is Raw ==> (r matches Ok(state) ==> state is Checksum || state is Size
            ==> n.out.checked() == n.out.history().len()),
    ensures
        stepped(setup, p, m, n, after, r),
{
    if r is Ok {
        let q = step(setup, n.reader.taken@, p)->0;
        lemma_step_reaches(setup, n.reader.taken@, p);
        lemma_step_keeps(setup, n.reader.taken@, p);
        m.out.bounds();
        if O::VERIFY && F::kind() !is Raw {
            let (i, j, k) = (p.start, m.out.checked(), n.out.checked());
            F::fresh(p.gzip).absorb_joined(
                m.out.history().subrange(i, j),
                n.out.history().subrange(j, k),
            );
            assert(n.out.history().subrange(i, k) =~= m.out.history().subrange(i, j)
                + n.out.history().subrange(j, k));
        }
    }
}

/// A step past the header that only reads.
proof fn lemma_told_stepped<I: Input, O: Output, F: Container>(
    setup: Setup,
    p: Progress,
    m: Moment<I, O, F>,
    n: Moment<I, O, F>,
    after: Context,
    r: Result<State, Stop>,
)
    requires
        m.at(setup, p),
        told(setup, p, m.reader, m.input, n.reader, n.input, r),
        n.out == m.out,
        n.check == m.check,
        summed(p, m.out, m.check),
        p.state !is Start,
        p.state !is Member,
        p.state !is Failed,
        r matches Ok(state) ==> state !is Start && state !is Failed,
        r is Ok ==> after.agrees(step(setup, n.reader.taken@, p)->0),
        r matches Err(Stop::Input(_)) ==> after.agrees(p),
        O::VERIFY && F::kind() !is Raw ==> (r matches Ok(state) ==> state is Checksum || state is Size
            ==> n.out.checked() == n.out.history().len()),
    ensures
        stepped(setup, p, m, n, after, r),
{
    lemma_told_made(setup, p, m, n, r);
    lemma_made_stepped(setup, p, m, n, after, r);
}

impl Context {
    /// Whether this is what has to be kept having got as far as `p`.
    spec fn agrees(self, p: Progress) -> bool {
        &&& p.state !is Member ==> self.gzip == p.gzip
        &&& p.state !is Start && p.state !is Member && p.gzip ==> self.start == p.start % 0x1_0000_0000
        &&& match p.state {
            State::Stored(_) => self.last == p.last,
            State::StoredLen => self.last == p.last,
            State::CodeLengths(_) => {
                &&& self.last == p.last
                &&& self.len_syms == p.len_syms
                &&& self.syms == p.syms
                &&& self.code_syms == p.code_syms
                &&& self.lengths@.take(19) == placed(p.lengths, p.lengths.len())
            },
            State::Lengths(index) => {
                &&& self.last == p.last
                &&& self.len_syms == p.len_syms
                &&& self.syms == p.syms
                &&& self.lengths@.take(index as int) == p.lengths
                &&& self.tables.len.is(p.len_code)
            },
            State::Length => {
                &&& self.last == p.last
                &&& self.tables.len.is(p.len_code)
                &&& self.tables.dist.is(p.dist_code)
            },
            State::Distance(_) => {
                &&& self.last == p.last
                &&& self.tables.len.is(p.len_code)
                &&& self.tables.dist.is(p.dist_code)
            },
            _ => true,
        }
    }

    /// Takes the first step of a stream.
    fn start<I: Input, O: Output, F: Container>(
        &mut self,
        reader: &mut Inflate,
        input: &mut I,
        out: &mut O,
        format: &mut F,
        Ghost(setup): Ghost<Setup>,
        Ghost(p): Ghost<Progress>,
    ) -> (r: Result<State, Stop>)
        requires
            (Moment { reader: *old(reader), input: *old(input), out: *old(out), check: *old(format) }).at(setup, p),
            setup.kind == F::kind(),
            p.state is Start,
            old(self).agrees(p),
            !p.gzip,
        ensures
            &*final((*final(out)).place()) == &*final((*old(out)).place()),
            &*final((*final(input)).place()) == &*final((*old(input)).place()),
            stepped(
                setup,
                p,
                Moment { reader: *old(reader), input: *old(input), out: *old(out), check: *old(format) },
                Moment { reader: *final(reader), input: *final(input), out: *final(out), check: *final(format) },
                *final(self),
                r,
            ),
    {
        let ghost start = (*reader, *input);
        proof {
            lemma_moved_nothing(*reader, *input);
            lemma_small_powers();
            F::framed();
            (*out).bounds();
            lemma_at_start(setup, p);
        }
        if F::TRAILER == 0 {
            return Ok(State::Block);
        }
        let first: u8 = reader.next_bits(input, 8, Ghost(start))? as u8;
        let mut fresh: F = F::new();
        if fresh.detect(first) {
            if first != 0x1f {
                return Err(Stop::Fail(Error::InvalidHeader));
            }
            return Ok(State::Member);
        }
        reader.zlib_flags(input, first, Ghost(start))?;
        // What was there before is not part of the stream.
        if let Err(error) = out.flush(format) {
            return Err(Stop::Fail(error));
        }
        *format = fresh;
        self.gzip = false;
        proof {
            let h = (*out).history();
            assert(h.subrange(h.len() as int, h.len() as int) =~= Seq::<u8>::empty());
            F::fresh(false).absorb_nothing();
        }
        Ok(State::Block)
    }

    /// Takes the first step of a gzip member.
    fn member<I: Input, O: Output, F: Container>(
        &mut self,
        reader: &mut Inflate,
        input: &mut I,
        out: &mut O,
        format: &mut F,
        Ghost(setup): Ghost<Setup>,
        Ghost(p): Ghost<Progress>,
    ) -> (r: Result<State, Stop>)
        requires
            (Moment { reader: *old(reader), input: *old(input), out: *old(out), check: *old(format) }).at(setup, p),
            setup.kind == F::kind(),
            p.state is Member,
            old(self).agrees(p),
        ensures
            &*final((*final(out)).place()) == &*final((*old(out)).place()),
            &*final((*final(input)).place()) == &*final((*old(input)).place()),
            stepped(
                setup,
                p,
                Moment { reader: *old(reader), input: *old(input), out: *old(out), check: *old(format) },
                Moment { reader: *final(reader), input: *final(input), out: *final(out), check: *final(format) },
                *final(self),
                r,
            ),
    {
        let flags: u16 = reader.member_head(input, Ghost(setup), Ghost(p))?;
        proof {
            reveal(fits);
            lemma_step_keeps(setup, reader.taken@, p);
            (*out).bounds();
        }
        // Each member has its own checksum and length.
        if let Err(error) = out.flush(format) {
            return Err(Stop::Fail(error));
        }
        let mut fresh: F = F::new();
        let _ = fresh.detect(0x1f);
        *format = fresh;
        self.gzip = true;
        self.start = (out.written() % 0x1_0000_0000) as u32;
        proof {
            reveal(fits);
            let h = (*out).history();
            assert(h.subrange(h.len() as int, h.len() as int) =~= Seq::<u8>::empty());
            F::fresh(true).absorb_nothing();
        }
        Ok(State::Skip(6, flags))
    }

    /// Reads a block header, and gets ready for what follows.
    fn block<I: Input>(
        &mut self,
        reader: &mut Inflate,
        input: &mut I,
        Ghost(setup): Ghost<Setup>,
        Ghost(p): Ghost<Progress>,
    ) -> (r: Result<State, Stop>)
        requires
            old(reader).sound(),
            (*old(input)).ready(),
            p.pos == old(reader).pos(),
            p.state is Block,
            old(self).agrees(p),
        ensures
            &*final((*final(input)).place()) == &*final((*old(input)).place()),
            told(setup, p, *old(reader), *old(input), *final(reader), *final(input), r),
            r is Ok ==> final(self).agrees(step(setup, final(reader).taken@, p)->0),
            r matches Ok(state) ==> within_block(state) || state is StoredLen,
            r is Err ==> final(self).agrees(p),
    {
        let (last, block) = reader.block_head(input, Ghost(setup), Ghost(p))?;
        self.last = last;
        proof {
            lemma_step_keeps(setup, reader.taken@, p);
            assert(step(setup, reader.taken@, p) == step_block(reader.taken@, p)) by {
                lemma_at_block(setup, p);
            }
        }
        match block {
            Block::Stored => Ok(State::StoredLen),
            Block::Fixed => {
                self.fixed();
                Ok(State::Length)
            },
            Block::Dynamic(len_syms, dist_syms, code_syms) => {
                self.dynamic(len_syms, dist_syms, code_syms);
                Ok(State::CodeLengths(0))
            },
        }
    }

    /// Gets ready for a block compressed with the fixed codes.
    fn fixed(&mut self)
        ensures
            final(self).gzip == old(self).gzip,
            final(self).start == old(self).start,
            final(self).last == old(self).last,
            final(self).tables.len.is(fixed_len_code()),
            final(self).tables.dist.is(fixed_dist_code()),
    {
        fixed_lengths(&mut self.lengths);
        proof {
            assert(self.lengths@.take(288) =~= fixed_len_code());
            assert(self.lengths@.subrange(288, 320) =~= fixed_dist_code());
        }
        let _ = self.tables.build(&self.lengths, 288, 320);
    }

    /// Gets ready for a block compressed with codes of its own.
    fn dynamic(&mut self, len_syms: usize, dist_syms: usize, code_syms: usize)
        requires
            len_syms + dist_syms <= 320,
        ensures
            final(self).gzip == old(self).gzip,
            final(self).start == old(self).start,
            final(self).last == old(self).last,
            final(self).len_syms == len_syms,
            final(self).syms == len_syms + dist_syms,
            final(self).code_syms == code_syms,
            final(self).lengths@.take(19) == placed(Seq::empty(), 0),
    {
        self.len_syms = len_syms;
        self.syms = len_syms + dist_syms;
        self.code_syms = code_syms;
        // The code lengths that are not given are zeros.
        self.lengths = [0; 320];
        assert(self.lengths@.take(19) =~= placed(Seq::empty(), 0));
    }

    /// Reads the lengths of the code length code, one at a time, and then
    /// makes that code of them.
    fn code_length<I: Input>(
        &mut self,
        reader: &mut Inflate,
        input: &mut I,
        index: usize,
        Ghost(setup): Ghost<Setup>,
        Ghost(p): Ghost<Progress>,
    ) -> (r: Result<State, Stop>)
        requires
            old(reader).sound(),
            (*old(input)).ready(),
            p.pos == old(reader).pos(),
            p.state == State::CodeLengths(index),
            orderly(setup, p),
            old(self).agrees(p),
        ensures
            &*final((*final(input)).place()) == &*final((*old(input)).place()),
            told(setup, p, *old(reader), *old(input), *final(reader), *final(input), r),
            r is Ok ==> final(self).agrees(step(setup, final(reader).taken@, p)->0),
            r matches Ok(state) ==> within_block(state) || state is StoredLen,
            r matches Err(Stop::Input(_)) ==> final(self).agrees(p),
    {
        if index < self.code_syms {
            reader.code_length(input, &mut self.lengths, index, Ghost(setup), Ghost(p))?;
            proof {
                lemma_step_keeps(setup, reader.taken@, p);
            }
            return Ok(State::CodeLengths(index + 1));
        }
        proof {
            lemma_moved_nothing(*reader, *input);
            lemma_placed_bound(p.lengths, p.lengths.len());
            assert forall|s: int| 0 <= s < 19 implies #[trigger] self.lengths@[s] <= 15 by {
                assert(self.lengths@.take(19)[s] <= 15);
            }
            assert(step(setup, reader.taken@, p) == step_code_lengths(reader.taken@, p)) by {
                lemma_at_code_lengths(setup, p);
            }
        }
        if !self.tables.build_first(&self.lengths) {
            return Err(Stop::Fail(Error::InvalidCode));
        }
        proof {
            lemma_step_keeps(setup, reader.taken@, p);
            assert(self.lengths@.take(0) =~= Seq::<u8>::empty());
        }
        Ok(State::Lengths(0))
    }

    /// Reads the code lengths of a block, a symbol at a time, and then makes
    /// its two codes of them.
    fn code_lengths<I: Input>(
        &mut self,
        reader: &mut Inflate,
        input: &mut I,
        index: usize,
        Ghost(setup): Ghost<Setup>,
        Ghost(p): Ghost<Progress>,
    ) -> (r: Result<State, Stop>)
        requires
            old(reader).sound(),
            (*old(input)).ready(),
            p.pos == old(reader).pos(),
            p.state == State::Lengths(index),
            orderly(setup, p),
            old(self).agrees(p),
        ensures
            &*final((*final(input)).place()) == &*final((*old(input)).place()),
            told(setup, p, *old(reader), *old(input), *final(reader), *final(input), r),
            r is Ok ==> final(self).agrees(step(setup, final(reader).taken@, p)->0),
            r matches Ok(state) ==> within_block(state) || state is StoredLen,
            r matches Err(Stop::Input(_)) ==> final(self).agrees(p),
    {
        if index < self.syms {
            let end: usize = reader.code_lengths(
                input,
                &self.tables.len,
                &mut self.lengths,
                index,
                self.syms,
                Ghost(setup),
                Ghost(p),
            )?;
            proof {
                lemma_step_keeps(setup, reader.taken@, p);
            }
            return Ok(State::Lengths(end));
        }
        proof {
            let lengths = self.lengths@;
            assert forall|s: int| 0 <= s < self.syms implies #[trigger] lengths[s] <= 15 by {
                assert(lengths.take(self.syms as int)[s] <= 15);
            }
            assert(p.lengths[256] == lengths[256]);
            assert(p.lengths.take(self.len_syms as int) =~= lengths.take(self.len_syms as int));
            assert(p.lengths.skip(self.len_syms as int) =~= lengths.subrange(
                self.len_syms as int,
                self.syms as int,
            ));
            lemma_moved_nothing(*reader, *input);
            assert(step(setup, reader.taken@, p) == step_lengths(reader.taken@, p)) by {
                lemma_at_lengths(setup, p);
            }
            lemma_step_keeps(setup, reader.taken@, p);
        }
        // A block without an end-of-block code could never finish.
        if self.lengths[256] == 0 || !self.tables.build(&self.lengths, self.len_syms, self.syms) {
            return Err(Stop::Fail(Error::InvalidCode));
        }
        Ok(State::Length)
    }

    /// Decodes a literal/length symbol.
    fn length<I: Input, O: Output, F: Container>(
        &mut self,
        reader: &mut Inflate,
        input: &mut I,
        out: &mut O,
        format: &mut F,
        Ghost(setup): Ghost<Setup>,
        Ghost(p): Ghost<Progress>,
    ) -> (r: Result<State, Stop>)
        requires
            (Moment { reader: *old(reader), input: *old(input), out: *old(out), check: *old(format) }).at(setup, p),
            setup.kind == F::kind(),
            p.state is Length,
            old(self).agrees(p),
        ensures
            &*final((*final(out)).place()) == &*final((*old(out)).place()),
            &*final((*final(input)).place()) == &*final((*old(input)).place()),
            *final(self) == *old(self),
            made(
                setup,
                p,
                Moment { reader: *old(reader), input: *old(input), out: *old(out), check: *old(format) },
                Moment { reader: *final(reader), input: *final(input), out: *final(out), check: *final(format) },
                r,
            ),
            r matches Ok(state) ==> match state {
                State::Length => true,
                State::Distance(_) => true,
                State::Block => true,
                State::Done => true,
                State::Checksum => (*final(out)).checked() == (*final(out)).history().len(),
                _ => false,
            },
    {
        let ghost m = Moment { reader: *reader, input: *input, out: *out, check: *format };
        match reader.length(input, out, format, &self.tables.len, Ghost(setup), Ghost(p))? {
            Symbol::Literal => Ok(State::Length),
            Symbol::Match(len) => Ok(State::Distance(len)),
            Symbol::End => {
                let ghost n = Moment { reader: *reader, input: *input, out: *out, check: *format };
                let ghost ended = Progress { pos: reader.pos(), ..p };
                proof {
                    F::framed();
                    reveal(in_place);
                    reveal(fits);
                }
                let r: Result<State, Stop> = reader.block_end(
                    input,
                    out,
                    format,
                    self.last,
                    F::TRAILER == 0,
                    Ghost(setup),
                    Ghost(ended),
                );
                proof {
                    let o = Moment { reader: *reader, input: *input, out: *out, check: *format };
                    lemma_closed_made(setup, p, m, n, o, r);
                }
                r
            },
        }
    }

    /// Checks the trailer of a stream against its data: the checksum, which
    /// takes an output that keeps the data, and for gzip the length, which any
    /// output can tell. Returns what comes after the stream.
    fn verify<O: Output, F: Container>(
        &self,
        out: &O,
        format: &F,
        check: u32,
        size: u32,
        Ghost(setup): Ghost<Setup>,
        Ghost(p): Ghost<Progress>,
    ) -> (r: Result<State, Stop>)
        requires
            orderly(setup, p),
            (*out).sound(),
            p.out == (*out).history(),
            setup.kind == F::kind(),
            setup.verify == O::VERIFY,
            p.state is Checksum || p.state is Size,
            self.agrees(p),
            summed(p, *out, *format),
        ensures
            forall|pos: int|
                match #[trigger] verified(setup, p, check as int, size as int, pos).state {
                    State::Failed(error) => r == Err::<State, Stop>(Stop::Fail(error)),
                    state => r == Ok::<State, Stop>(state),
                },
    {
        let written: u32 = ((out.written() % 0x1_0000_0000 + 0x1_0000_0000 - self.start as u64)
            % 0x1_0000_0000) as u32;
        let words: [u32; 2] = format.trailer(written);
        proof {
            let data = p.out.skip(p.start);
            reveal(fits);
            if p.gzip {
                assert(written == data.len() % 0x1_0000_0000);
            }
            if O::VERIFY {
                F::sums(p.gzip, data, written);
                assert(p.out.subrange(p.start, p.out.len() as int) =~= data);
            }
        }
        if (O::VERIFY && check != words[0]) || (self.gzip && size != written) {
            Err(Stop::Fail(Error::ChecksumMismatch))
        } else if self.gzip {
            Ok(State::Next)
        } else {
            Ok(State::Done)
        }
    }

    /// Reads the trailer of a stream, a word at a time, and what follows it.
    fn trailer<I: Input, O: Output, F: Container>(
        &mut self,
        reader: &mut Inflate,
        input: &mut I,
        out: &O,
        format: &F,
        state: State,
        Ghost(setup): Ghost<Setup>,
        Ghost(p): Ghost<Progress>,
    ) -> (r: Result<State, Stop>)
        requires
            (Moment { reader: *old(reader), input: *old(input), out: *out, check: *format }).at(setup, p),
            setup.kind == F::kind(),
            setup.verify == O::VERIFY,
            p.state == state,
            state is Checksum || state is Size || state is Next,
            old(self).agrees(p),
            summed(p, *out, *format),
        ensures
            &*final((*final(input)).place()) == &*final((*old(input)).place()),
            *final(self) == *old(self),
            told(setup, p, *old(reader), *old(input), *final(reader), *final(input), r),
            r matches Ok(next) ==> match next {
                State::Size(_) => state is Checksum,
                State::Next => true,
                State::Member => true,
                State::Done => true,
                _ => false,
            },
    {
        let ghost first = (*reader, *input);
        proof {
            lemma_moved_nothing(*reader, *input);
            lemma_small_powers();
            match state {
                State::Checksum => {
                    lemma_at_checksum(setup, p);
                },
                State::Size(_) => {
                    lemma_at_size(setup, p);
                },
                _ => {
                    lemma_at_next(setup, p);
                },
            }
        }
        match state {
            State::Checksum => {
                let check: u32 = reader.word(input, Ghost(first))?;
                if self.gzip {
                    Ok(State::Size(check))
                } else {
                    assert(verified(setup, p, check as int, 0, reader.pos()).out == p.out);
                    self.verify(out, format, check, 0, Ghost(setup), Ghost(p))
                }
            },
            State::Size(check) => {
                let size: u32 = reader.word(input, Ghost(first))?;
                assert(verified(setup, p, check as int, size as int, reader.pos()).out == p.out);
                self.verify(out, format, check, size, Ghost(setup), Ghost(p))
            },
            // Another member may follow. Anything else is ignored, as gzip
            // does with trailing padding.
            _ => {
                let byte: u16 = reader.next_bits(input, 8, Ghost(first))?;
                if byte == 0x1f {
                    Ok(State::Member)
                } else {
                    Ok(State::Done)
                }
            },
        }
    }

    /// Takes the step `state` calls for. Returns the state that follows.
    fn step<I: Input, O: Output, F: Container>(
        &mut self,
        reader: &mut Inflate,
        input: &mut I,
        out: &mut O,
        format: &mut F,
        state: State,
        Ghost(setup): Ghost<Setup>,
        Ghost(p): Ghost<Progress>,
    ) -> (r: Result<State, Stop>)
        requires
            (Moment { reader: *old(reader), input: *old(input), out: *old(out), check: *old(format) }).at(setup, p),
            setup.kind == F::kind(),
            setup.verify == O::VERIFY,
            p.state == state,
            !halted(p),
            old(self).agrees(p),
            summed(p, *old(out), *old(format)),
            state is Start ==> !p.gzip,
        ensures
            &*final((*final(out)).place()) == &*final((*old(out)).place()),
            &*final((*final(input)).place()) == &*final((*old(input)).place()),
            stepped(
                setup,
                p,
                Moment { reader: *old(reader), input: *old(input), out: *old(out), check: *old(format) },
                Moment { reader: *final(reader), input: *final(input), out: *final(out), check: *final(format) },
                *final(self),
                r,
            ),
    {
        let ghost m = Moment { reader: *reader, input: *input, out: *out, check: *format };
        let told: Result<State, Stop> = match state {
            State::Start => {
                return self.start(reader, input, out, format, Ghost(setup), Ghost(p));
            },
            State::Member => {
                return self.member(reader, input, out, format, Ghost(setup), Ghost(p));
            },
            State::Skip(_, _) => reader.header_item(input, state, Ghost(setup), Ghost(p)),
            State::Fields(_) => reader.header_item(input, state, Ghost(setup), Ghost(p)),
            State::Block => self.block(reader, input, Ghost(setup), Ghost(p)),
            State::StoredLen => match reader.stored_len(input, Ghost(setup), Ghost(p)) {
                Ok(len) => Ok(State::Stored(len)),
                Err(stop) => Err(stop),
            },
            State::CodeLengths(index) => self.code_length(reader, input, index, Ghost(setup), Ghost(p)),
            State::Lengths(index) => self.code_lengths(reader, input, index, Ghost(setup), Ghost(p)),
            State::Checksum => self.trailer(reader, input, out, format, state, Ghost(setup), Ghost(p)),
            State::Size(_) => self.trailer(reader, input, out, format, state, Ghost(setup), Ghost(p)),
            State::Next => self.trailer(reader, input, out, format, state, Ghost(setup), Ghost(p)),
            _ => {
                return self.data(reader, input, out, format, state, Ghost(setup), Ghost(p));
            },
        };
        proof {
            let n = Moment { reader: *reader, input: *input, out: *out, check: *format };
            if told is Ok {
                lemma_step_keeps(setup, reader.taken@, p);
            }
            lemma_told_stepped(setup, p, m, n, *self, told);
        }
        told
    }

    /// Takes a step that may output something.
    fn data<I: Input, O: Output, F: Container>(
        &mut self,
        reader: &mut Inflate,
        input: &mut I,
        out: &mut O,
        format: &mut F,
        state: State,
        Ghost(setup): Ghost<Setup>,
        Ghost(p): Ghost<Progress>,
    ) -> (r: Result<State, Stop>)
        requires
            (Moment { reader: *old(reader), input: *old(input), out: *old(out), check: *old(format) }).at(setup, p),
            setup.kind == F::kind(),
            p.state == state,
            state is Stored || state is Length || state is Distance,
            old(self).agrees(p),
            summed(p, *old(out), *old(format)),
        ensures
            &*final((*final(out)).place()) == &*final((*old(out)).place()),
            &*final((*final(input)).place()) == &*final((*old(input)).place()),
            stepped(
                setup,
                p,
                Moment { reader: *old(reader), input: *old(input), out: *old(out), check: *old(format) },
                Moment { reader: *final(reader), input: *final(input), out: *final(out), check: *final(format) },
                *final(self),
                r,
            ),
    {
        let ghost m = Moment { reader: *reader, input: *input, out: *out, check: *format };
        let made: Result<State, Stop> = match state {
            State::Stored(bytes) => if bytes == 0 {
                proof {
                    F::framed();
                    lemma_moved_nothing(m.reader, m.input);
                    assert(step(setup, reader.taken@, p) == Some(block_ended(setup, p))) by {
                        lemma_at_stored(setup, p);
                    }
                }
                let r: Result<State, Stop> = reader.block_end(
                    input,
                    out,
                    format,
                    self.last,
                    F::TRAILER == 0,
                    Ghost(setup),
                    Ghost(p),
                );
                proof {
                    let n = Moment { reader: *reader, input: *input, out: *out, check: *format };
                    lemma_closed_made(setup, p, m, m, n, r);
                }
                r
            } else {
                match reader.stored_byte(input, out, format, Ghost(setup), Ghost(p)) {
                    Ok(()) => Ok(State::Stored(bytes - 1)),
                    Err(stop) => Err(stop),
                }
            },
            State::Distance(len) => match reader.distance(
                input,
                out,
                format,
                &self.tables.dist,
                len,
                Ghost(setup),
                Ghost(p),
            ) {
                Ok(()) => Ok(State::Length),
                Err(stop) => Err(stop),
            },
            _ => self.length(reader, input, out, format, Ghost(setup), Ghost(p)),
        };
        proof {
            let n = Moment { reader: *reader, input: *input, out: *out, check: *format };
            if made is Ok {
                lemma_step_keeps(setup, reader.taken@, p);
            }
            lemma_made_stepped(setup, p, m, n, *self, made);
        }
        made
    }
}

/// Stream in, pushed: decompresses format `F` from whatever input comes, in
/// pieces of any size, a byte at a time if need be.
///
/// Where the functions, such as [`gunzip`](crate::gunzip), pull their input
/// and only return once done, this is for when the input is not yours to ask
/// for: [`write`](Self::write) what arrives, as it arrives, then
/// [`finish`](Self::finish). `F` is [`Gzip`](crate::Gzip),
/// [`Zlib`](crate::Zlib), [`Raw`](crate::Raw), or [`Detect`](crate::Detect)
/// for either of the first two.
///
/// The decompressed data goes to any [`Output`]. Whatever can be decoded from
/// the input so far is, and is delivered before `write` returns: a
/// [`Stream`](crate::Stream) gets its callback invoked for it then, without
/// waiting for its window to fill up.
///
/// What has to be remembered from one piece of input to the next, the codes
/// of the current block mostly, is kept in here, in place of the stack the
/// functions use, and nothing depends on the size of the pieces.
pub struct Decompressor<O, F> {
    out: O,
    format: F,
    state: State,
    /// Where the output was when the stream started.
    begin: u64,
    reader: Inflate,
    context: Context,
    progress: Ghost<Progress>,
    begun: Ghost<Seq<u8>>,
    sunk: Ghost<bool>,
}

impl<O: Output, F: Container> Decompressor<O, F> {
    /// The output.
    pub closed spec fn output(&self) -> O {
        self.out
    }

    /// What the output was when the stream started.
    pub closed spec fn begun(&self) -> Seq<u8> {
        self.begun@
    }

    /// The bytes of the stream that were consumed so far.
    pub closed spec fn taken(&self) -> Seq<u8> {
        self.reader.taken@
    }

    /// The error with which the destination of the output failed, if it did.
    pub closed spec fn sunk(&self) -> Option<Error> {
        if self.sunk@ {
            Some(self.state->Failed_0)
        } else {
            None
        }
    }

    /// What decoding depends on.
    pub open spec fn setup(&self) -> Setup {
        Setup { kind: F::kind(), verify: O::verifies(), terms: self.output().terms() }
    }

    /// How far what was consumed gets decoding.
    pub open spec fn end(&self) -> Progress {
        advance(self.setup(), self.taken(), origin(self.begun()))
    }

    /// Whether the decompressor is in order.
    pub closed spec fn sound(&self) -> bool {
        &&& self.out.sound()
        &&& self.begin == self.begun@.len()
        &&& self.begun@.is_prefix_of(self.out.history())
        &&& if self.sunk@ {
            self.state is Failed
        } else if self.state is Failed {
            self.end().state == self.state && self.end().out == self.out.history()
        } else {
            &&& self.on_course(self.setup())
            &&& self.progress@ == self.end() || (self.taken() == Seq::<u8>::empty() && self.progress@
                == origin(self.begun@))
            // Nothing was set aside, and everything was delivered.
            &&& self.state is Done ==> self.reader.bit_cnt == 0 && self.out.checked() == self.out.history().len()
        }
    }

    /// Whether everything agrees with how far decoding has got.
    spec fn on_course(&self, setup: Setup) -> bool {
        let p = self.progress@;
        &&& self.out.sound()
        &&& self.out.terms() == setup.terms
        &&& self.reader.sound()
        &&& orderly(setup, p)
        &&& p.state == self.state
        &&& p.state !is Failed
        &&& p.pos == self.reader.pos()
        &&& p.out == self.out.history()
        &&& self.context.agrees(p)
        &&& summed(p, self.out, self.format)
        &&& reaches(setup, self.reader.taken@, origin(self.begun@), p)
        &&& p.state is Start ==> !p.gzip
        // A step that some bytes were set aside for takes them all.
        &&& self.reader.bit_cnt < 8 || (step(setup, self.reader.taken@, p) is None && !halted(p))
    }

    /// Starts decompressing a stream.
    pub fn new(output: O) -> (r: Self)
        requires
            output.sound(),
        ensures
            r.sound(),
            r.output() == output,
            r.begun() == output.history(),
            r.taken() == Seq::<u8>::empty(),
            r.sunk() is None,
    {
        let begin: u64 = output.written();
        let ghost p = origin(output.history());
        proof {
            output.bounds();
            reveal(in_place);
            reveal(fits);
        }
        Decompressor {
            out: output,
            format: F::new(),
            state: State::Start,
            begin,
            reader: Inflate::new(),
            context: Context {
                gzip: false,
                start: 0,
                last: false,
                len_syms: 0,
                syms: 0,
                code_syms: 0,
                lengths: [0; 320],
                tables: Tables::new(),
            },
            progress: Ghost(p),
            begun: Ghost(output.history()),
            sunk: Ghost(false),
        }
    }

    /// Nothing more is to come to the output once nothing more is to come here.
    pub proof fn lemma_resolved(&self)
        ensures
            has_resolved(*self) ==> has_resolved(self.output()),
    {
    }

    /// Decompresses the next piece of the stream, of any length, as far as it
    /// goes. Returns how much of `data` was consumed: all of it, unless the
    /// stream ended before it did.
    ///
    /// No more than the stream is consumed, apart from the single look-ahead
    /// byte it takes to detect another gzip member. Once an error is returned,
    /// it is all that is ever returned.
    pub fn write(&mut self, data: &[u8]) -> (r: Result<usize, Error>)
        requires
            old(self).sound(),
        ensures
            final(self).sound(),
            final(self).begun() == old(self).begun(),
            same_output(old(self).output(), final(self).output()),
            &*final(final(self).output().place()) == &*final(old(self).output().place()),
            // There is nothing more to an end, or to an error.
            old(self).sunk() is None && halted(old(self).end()) ==> {
                &&& final(self).sunk() is None
                &&& final(self).end() == old(self).end()
                &&& final(self).output() == old(self).output()
                &&& r == match old(self).end().state {
                    State::Failed(error) => Err::<usize, Error>(error),
                    _ => Ok(0),
                }
            },
            match old(self).sunk() {
                Some(error) => {
                    &&& r == Err::<usize, Error>(error)
                    &&& final(self).sunk() == old(self).sunk()
                    &&& final(self).output() == old(self).output()
                },
                None => {
                    let end = advance(
                        old(self).setup(),
                        old(self).taken() + data@,
                        origin(old(self).begun()),
                    );
                    &&& handed_over(old(self).output(), final(self).output(), end)
                    &&& match r {
                        Ok(consumed) => {
                            &&& final(self).sunk() is None
                            &&& consumed <= data@.len()
                            &&& final(self).taken() == old(self).taken() + data@.take(consumed as int)
                            &&& final(self).end() == end
                            &&& final(self).output().history() == end.out
                            &&& final(self).output().checked() == end.out.len()
                            &&& end.state !is Failed
                            &&& if end.state is Done {
                                bit_len(final(self).taken()) == end.pos
                            } else {
                                consumed == data@.len()
                            }
                        },
                        Err(error) => {
                            ||| {
                                &&& final(self).sunk() is None
                                &&& end.state == State::Failed(error)
                                &&& final(self).end() == end
                                &&& final(self).output().history() == end.out
                            }
                            ||| {
                                &&& final(self).sunk() == Some(error)
                                &&& old(self).output().faults().contains(error)
                                &&& old(self).output().checked() < end.out.len()
                                &&& old(self).output().history().is_prefix_of(
                                    final(self).output().history(),
                                )
                                &&& final(self).output().history().is_prefix_of(end.out)
                            }
                        },
                    }
                },
            },
    {
        if let State::Failed(error) = self.state {
            proof {
                if !self.sunk@ {
                    lemma_advance_joined(self.setup(), self.taken(), data@, origin(self.begun()));
                    lemma_halted_stays(self.setup(), self.taken() + data@, self.end());
                }
            }
            return Err(error);
        }
        proof {
            lemma_nothing_yet(self.setup(), self.begun());
        }
        if let State::Done = self.state {
            proof {
                lemma_advance_joined(self.setup(), self.taken(), data@, origin(self.begun()));
                lemma_halted_stays(self.setup(), self.taken() + data@, self.end());
                assert(self.taken() =~= self.taken() + data@.take(0));
            }
            return Ok(0);
        }
        let mut input: &[u8] = data;
        match self.run(&mut input) {
            Ok(()) => {
                proof {
                    let (a, b) = (self.taken() + input@, old(self).taken() + data@);
                    assert(a.len() == b.len());
                    assert forall|i: int| old(self).taken().len() <= i < self.taken().len() implies
                        #[trigger] self.taken()[i] == data@[i - old(self).taken().len()] by {
                        assert(a[i] == b[i]);
                    }
                }
                let consumed: usize = data.len() - input.len();
                proof {
                    assert(self.taken() =~= old(self).taken() + data@.take(consumed as int));
                    lemma_advance_joined(self.setup(), self.taken(), input@, origin(self.begun()));
                    assert(old(self).taken() + data@ =~= self.taken() + input@);
                    if input@.len() == 0 {
                        assert(self.taken() + input@ =~= self.taken());
                    } else {
                        lemma_halted_stays(self.setup(), self.taken() + input@, self.end());
                    }
                }
                Ok(consumed)
            },
            Err(error) => {
                self.state = State::Failed(error);
                Err(error)
            },
        }
    }

    /// Takes steps until the input or the stream runs out.
    fn run(&mut self, input: &mut &[u8]) -> (r: Result<(), Error>)
        requires
            old(self).sound(),
            old(self).state !is Failed,
        ensures
            final(self).out.sound(),
            final(self).begin == old(self).begin,
            final(self).begun@ == old(self).begun@,
            final(self).begun@.is_prefix_of(final(self).out.history()),
            same_output(old(self).out, final(self).out),
            &*final(final(self).out.place()) == &*final(old(self).out.place()),
            handed_over(
                old(self).out,
                final(self).out,
                advance(old(self).setup(), old(self).taken() + old(input)@, origin(old(self).begun())),
            ),
            match r {
                Ok(_) => {
                    &&& !final(self).sunk@
                    &&& final(self).on_course(final(self).setup())
                    &&& final(self).progress@ == final(self).end()
                    &&& final(self).out.checked() == final(self).out.history().len()
                    &&& final(self).taken() + final(input)@ == old(self).taken() + old(input)@
                    &&& old(self).taken().is_prefix_of(final(self).taken())
                    &&& if final(self).state is Done {
                        final(self).reader.bit_cnt == 0
                    } else {
                        final(input)@.len() == 0
                    }
                },
                Err(error) => {
                    let end = advance(
                        old(self).setup(),
                        old(self).taken() + old(input)@,
                        origin(old(self).begun()),
                    );
                    if final(self).sunk@ {
                        &&& old(self).out.faults().contains(error)
                        &&& old(self).out.checked() < end.out.len()
                        &&& old(self).out.history().is_prefix_of(final(self).out.history())
                        &&& final(self).out.history().is_prefix_of(end.out)
                    } else {
                        &&& end.state == State::Failed(error)
                        &&& end.out == final(self).out.history()
                        &&& final(self).end() == end
                    }
                },
            },
    {
        let ghost setup = self.setup();
        let ghost all = self.taken() + input@;
        let ghost from = origin(self.begun@);
        let ghost before = *self;
        proof {
            O::verifies_so();
        }
        // More than any piece holds.
        self.reader.left = INPUT_LIMIT;
        assert(input.len() <= INPUT_LIMIT);
        loop
            invariant
                setup == before.setup(),
                setup == self.setup(),
                setup.verify == O::VERIFY,
                before == *old(self),
                before.out.sound(),
                all == before.taken() + old(input)@,
                from == origin(self.begun@),
                self.begin == before.begin,
                self.begun@ == before.begun@,
                self.begun@.is_prefix_of(before.out.history()),
                before.out.history().is_prefix_of(self.out.history()),
                before.out.checked() <= self.out.checked(),
                same_output(before.out, self.out),
                at_marks(before.out, self.out, self.progress@),
                &*final(self.out.place()) == &*final(before.out.place()),
                !self.sunk@,
                self.on_course(setup),
                self.taken() + input@ == all,
                before.taken().is_prefix_of(self.taken()),
                input@.len() <= self.reader.left,
            ensures
                self.state is Done || (input@.len() == 0 && step(setup, self.taken(), self.progress@) is None),
            decreases 8 * self.reader.left + self.reader.bit_cnt, rank(self.state),
        {
            if let State::Done = self.state {
                break;
            }
            let ghost p = self.progress@;
            let saved: (u32, u32, u128, &[u8]) = (
                self.reader.bit_buf,
                self.reader.bit_cnt,
                self.reader.left,
                *input,
            );
            let ghost taken = self.reader.taken@;
            let ghost m = Moment { reader: self.reader, input: *input, out: self.out, check: self.format };
            let r: Result<State, Stop> = self.context.step(
                &mut self.reader,
                input,
                &mut self.out,
                &mut self.format,
                self.state,
                Ghost(setup),
                Ghost(p),
            );
            let ghost n = Moment { reader: self.reader, input: *input, out: self.out, check: self.format };
            match r {
                Ok(state) => {
                    self.state = state;
                    self.progress = Ghost(step(setup, self.reader.taken@, p)->0);
                    proof {
                        lemma_went_on(setup, from, p, m, n);
                        lemma_step_keeps(setup, self.reader.taken@, p);
                        lemma_step_shrinks(setup, self.reader.taken@, p);
                        lemma_step_orderly(setup, self.reader.taken@, p);
                        assert(self.taken() + input@ =~= all);
                        assert(before.taken() =~= self.taken().subrange(0, before.taken().len() as int));
                        assert(before.out.history() =~= self.out.history().subrange(
                            0,
                            before.out.history().len() as int,
                        ));
                    }
                },
                Err(Stop::Input(_)) => {
                    // The input ran out. What the step left is less than the
                    // 32 bits that a step reads at most.
                    proof {
                        lemma_step_short(setup, self.reader.taken@, p);
                        assert(self.reader.taken@ =~= taken + saved.3@);
                    }
                    let ghost full = self.reader.taken@;
                    self.reader = Inflate {
                        bit_buf: saved.0,
                        bit_cnt: saved.1,
                        left: saved.2,
                        status: Ok(()),
                        taken: Ghost(taken),
                        zeros: Ghost(0),
                    };
                    *input = saved.3;
                    self.reader.set_aside(input);
                    proof {
                        assert(self.reader.taken@ =~= full);
                        lemma_reaches_longer(setup, taken, self.taken(), from, p);
                        assert(self.taken() + input@ =~= all);
                        assert(before.taken() =~= self.taken().subrange(0, before.taken().len() as int));
                    }
                    break;
                },
                Err(Stop::Fail(error)) => {
                    proof {
                        let q = step(setup, self.reader.taken@, p)->0;
                        lemma_went_on(setup, from, p, m, n);
                        lemma_reaches_longer(setup, self.taken(), self.taken(), from, q);
                        assert(self.taken() + input@ =~= all);
                        assert(advance(setup, self.taken() + input@, from) == advance(setup, all, q));
                        lemma_step_forward(setup, self.reader.taken@, p);
                        lemma_advance_forward(setup, all, q);
                        lemma_step_keeps(setup, self.reader.taken@, p);
                        lemma_advance_marks(setup, all, q);
                    }
                    let ghost q = step(setup, self.reader.taken@, p)->0;
                    let ghost sunk = !(q.state == State::Failed(error) && q.out == self.out.history());
                    self.sunk = Ghost(sunk);
                    proof {
                        let q = step(setup, self.reader.taken@, p)->0;
                        let h = self.out.history();
                        if self.sunk@ {
                            assert(before.out.history() =~= h.subrange(0, before.out.history().len() as int));
                            assert(h =~= advance(setup, all, q).out.subrange(0, h.len() as int));
                        } else {
                            lemma_halted_stays(setup, all, q);
                            lemma_halted_stays(setup, self.taken(), q);
                        }
                        assert(self.begun@ =~= h.subrange(0, self.begun@.len() as int));
                    }
                    return Err(error);
                },
            }
        }
        let ghost p = self.progress@;
        let ghost m = Moment { reader: self.reader, input: *input, out: self.out, check: self.format };
        proof {
            lemma_reaches_longer(setup, self.taken(), self.taken(), from, p);
            assert(advance(setup, self.taken() + input@, from) == advance(setup, all, p));
            lemma_advance_forward(setup, all, p);
            lemma_advance_marks(setup, all, p);
            reveal(advance);
            reveal(in_place);
            if p.state is Done {
                lemma_halted_stays(setup, self.taken(), p);
            }
            self.out.bounds();
        }
        let r: Result<(), Error> = self.out.flush(&mut self.format);
        let ghost sunk = r is Err;
        self.sunk = Ghost(sunk);
        proof {
            let h = self.out.history();
            assert(self.begun@ =~= h.subrange(0, self.begun@.len() as int));
            if r is Ok && O::VERIFY && p.start <= m.out.checked() {
                let (i, j, k) = (p.start, m.out.checked(), self.out.checked());
                F::fresh(p.gzip).absorb_joined(h.subrange(i, j), h.subrange(j, k));
                assert(h.subrange(i, k) =~= h.subrange(i, j) + h.subrange(j, k));
            }
        }
        r
    }

    /// Whether the stream has ended, and `write` has nothing left to consume.
    ///
    /// A gzip stream only ends for sure with something other than a gzip
    /// member, or with `finish`.
    pub fn is_done(&self) -> (r: bool)
        requires
            self.sound(),
        ensures
            r == (self.sunk() is None && self.end().state is Done),
    {
        proof {
            lemma_nothing_yet(self.setup(), self.begun());
        }
        matches!(self.state, State::Done)
    }

    /// Ends the input, which fails with [`Error::UnexpectedEof`] unless the
    /// stream has ended as well. Returns the number of bytes produced.
    ///
    /// The decompressor is then ready for another stream, to the same output.
    pub fn finish(&mut self) -> (r: Result<u64, Error>)
        requires
            old(self).sound(),
        ensures
            r == match old(self).sunk() {
                Some(error) => Err::<u64, Error>(error),
                None => match old(self).end().state {
                    State::Done => Ok((old(self).output().history().len() - old(self).begun().len()) as u64),
                    State::Next => Ok((old(self).output().history().len() - old(self).begun().len()) as u64),
                    State::Failed(error) => Err(error),
                    _ => Err(Error::UnexpectedEof),
                },
            },
            final(self).sound(),
            final(self).output() == old(self).output(),
            final(self).begun() == old(self).output().history(),
            final(self).taken() == Seq::<u8>::empty(),
            final(self).sunk() is None,
    {
        let ghost p = origin(self.out.history());
        proof {
            lemma_nothing_yet(self.setup(), self.begun());
            self.out.bounds();
            reveal(in_place);
            reveal(fits);
        }
        let state: State = self.state;
        let end: u64 = self.out.written();
        let len: u64 = end - self.begin;
        self.state = State::Start;
        self.begin = end;
        self.format = F::new();
        self.reader = Inflate::new();
        self.context.gzip = false;
        self.progress = Ghost(p);
        self.begun = Ghost(self.out.history());
        self.sunk = Ghost(false);
        match state {
            State::Done => Ok(len),
            State::Next => Ok(len),
            State::Failed(error) => Err(error),
            _ => Err(Error::UnexpectedEof),
        }
    }
}

/// A step further along the way.
proof fn lemma_went_on<I: Input, O: Output, F: Container>(
    setup: Setup,
    from: Progress,
    p: Progress,
    m: Moment<I, O, F>,
    n: Moment<I, O, F>,
)
    requires
        0 <= p.pos,
        reaches(setup, m.reader.taken@, from, p),
        moved(m.reader, m.input, n.reader, n.input),
        step(setup, n.reader.taken@, p) is Some,
    ensures
        reaches(setup, n.reader.taken@, from, step(setup, n.reader.taken@, p)->0),
        p.out.is_prefix_of(step(setup, n.reader.taken@, p)->0.out),
{
    let data = n.reader.taken@;
    let q = step(setup, data, p)->0;
    lemma_reaches_longer(setup, m.reader.taken@, data, from, p);
    lemma_step_reaches(setup, data, p);
    assert forall|more: Seq<u8>| #[trigger] advance(setup, data + more, from) == advance(
        setup,
        data + more,
        q,
    ) by {
        assert(advance(setup, data + more, p) == advance(setup, data + more, q));
    }
}

/// What decoding gets to without anything to decode: nothing.
proof fn lemma_nothing_yet(setup: Setup, out: Seq<u8>)
    ensures
        ({
            let end = advance(setup, Seq::<u8>::empty(), origin(out));
            &&& end.state is Start || end.state is Block
            &&& end.out == out
        }),
{
    reveal(advance);
    let p = origin(out);
    let empty = Seq::<u8>::empty();
    lemma_at_start(setup, p);
    if let Some(q) = step(setup, empty, p) {
        lemma_at_block(setup, q);
        assert(step(setup, empty, q) is None);
        assert(advance(setup, empty, q) == q);
    }
}

} // verus!
