//! The gzip (RFC 1952) and zlib (RFC 1950) containers, pulled from an input.

use vstd::prelude::*;

use crate::bits::bit_len;
use crate::checksum::{Adler32, Crc32};
use crate::course::{
    finished, lemma_finished_joined, lemma_ran_alone, lemma_ran_done, lemma_ran_finished,
    lemma_ran_flush, lemma_ran_joined, lemma_ran_last, lemma_ran_nothing, lemma_ran_told,
    lemma_told_ran, ran, Moment,
};
use crate::decoding::{
    advance, fits, halted, in_place, lemma_at_checksum, lemma_at_next, lemma_at_size,
    lemma_at_start, lemma_step_shrinks, orderly, origin, rank, step, swapped, Kind, Progress,
    Setup, State,
};
use crate::error::Error;
use crate::input::{runs_dry, Input, INPUT_LIMIT};
use crate::output::{same_output, Counter, Output, Terms};
use crate::reader::{lemma_moved_nothing, starved, Inflate, Stop};
use crate::steps::{
    lemma_advance_forward, lemma_advance_joined, lemma_advance_orderly, lemma_advance_within,
    lemma_halted_stays, lemma_small_powers, lemma_step_keeps,
};

verus! {

/// Swaps the bytes of a number: big-endian to little-endian, and back.
pub fn swap(x: u32) -> (r: u32)
    ensures
        r == swapped(x as int),
{
    (x % 256) * 0x100_0000 + (x / 0x100 % 256) * 0x1_0000 + (x / 0x1_0000 % 256) * 0x100 + x / 0x100_0000
}

impl Inflate {
    /// Reads the rest of a gzip header, past its flags.
    fn header<I: Input, O: Output>(
        &mut self,
        input: &mut I,
        flags: u16,
        Ghost(setup): Ghost<Setup>,
        Ghost(p): Ghost<Progress>,
        Ghost(m): Ghost<Moment<I, O, ()>>,
    ) -> (r: Result<Ghost<Progress>, Stop>)
        requires
            m.reader == *old(self),
            m.input == *old(input),
            m.at(setup, p),
            p.state == State::Skip(6, flags),
        ensures
            &*final((*final(input)).place()) == &*final((*old(input)).place()),
            ran(
                setup,
                p,
                m,
                Moment { reader: *final(self), input: *final(input), out: m.out, check: m.check },
                match r {
                    Ok(q) => Ok(q@),
                    Err(stop) => Err(stop),
                },
            ),
            match r {
                Ok(q) => q@.state is Block && q@.gzip == p.gzip && q@.start == p.start,
                Err(_) => true,
            },
    {
        let ghost mut n = m;
        let ghost mut q = p;
        let mut state: State = State::Skip(6, flags);
        proof {
            lemma_ran_nothing(setup, p, m);
        }
        loop
            invariant
                &*final((*input).place()) == &*final((*old(input)).place()),
                m.out.sound(),
                p.out == m.out.history(),
                n == (Moment { reader: *self, input: *input, out: m.out, check: m.check }),
                n.at(setup, q),
                ran(setup, p, m, n, Ok(q)),
                q.state == state,
                state is Skip || state is Fields || state is Block,
                q.gzip == p.gzip,
                q.start == p.start,
            decreases 8 * self.left + self.bit_cnt, rank(state),
        {
            if let State::Block = state {
                return Ok(Ghost(q));
            }
            let r: Result<State, Stop> = self.header_item(input, state, Ghost(setup), Ghost(q));
            proof {
                let o = Moment { reader: *self, input: *input, out: m.out, check: m.check };
                lemma_ran_told(setup, p, q, m, n, o, r);
                if r is Ok {
                    lemma_step_keeps(setup, self.taken@, q);
                    lemma_step_shrinks(setup, self.taken@, q);
                }
                n = o;
                q = step(setup, self.taken@, q)->0;
            }
            state = r?;
        }
    }

    /// Decodes one gzip member, past the first byte of its header.
    fn member<I: Input, O: Output>(
        &mut self,
        input: &mut I,
        out: &mut O,
        Ghost(setup): Ghost<Setup>,
        Ghost(p): Ghost<Progress>,
    ) -> (r: Result<Ghost<Progress>, Stop>)
        requires
            (Moment { reader: *old(self), input: *old(input), out: *old(out), check: () }).at(setup, p),
            p.state is Member,
            p.marks.contains(p.out.len() as int),
            setup.verify == O::VERIFY,
            setup.kind !is Raw,
        ensures
            &*final((*final(out)).place()) == &*final((*old(out)).place()),
            &*final((*final(input)).place()) == &*final((*old(input)).place()),
            ran(
                setup,
                p,
                Moment { reader: *old(self), input: *old(input), out: *old(out), check: () },
                Moment { reader: *final(self), input: *final(input), out: *final(out), check: () },
                match r {
                    Ok(q) => Ok(q@),
                    Err(stop) => Err(stop),
                },
            ),
            match r {
                Ok(q) => q@.state is Next && (*final(out)).checked() == (*final(out)).history().len(),
                Err(_) => true,
            },
    {
        let ghost m = Moment { reader: *self, input: *input, out: *out, check: () };
        // What was there before is not part of the member.
        proof {
            (*out).bounds();
        }
        let mut nothing: () = ();
        let r: Result<(), Error> = out.flush(&mut nothing);
        let ghost a = Moment { reader: *self, input: *input, out: *out, check: () };
        proof {
            lemma_ran_flush(setup, p, m, a, r);
        }
        if let Err(error) = r {
            return Err(Stop::Fail(error));
        }
        let r: Result<u16, Stop> = self.member_head(input, Ghost(setup), Ghost(p));
        let ghost b = Moment { reader: *self, input: *input, out: *out, check: () };
        proof {
            lemma_ran_told(
                setup,
                p,
                p,
                m,
                a,
                b,
                match r {
                    Ok(flags) => Ok(State::Skip(6, flags)),
                    Err(stop) => Err(stop),
                },
            );
        }
        let flags: u16 = r?;
        let ghost q = step(setup, self.taken@, p)->0;
        let r: Result<Ghost<Progress>, Stop> = self.header::<I, O>(
            input,
            flags,
            Ghost(setup),
            Ghost(q),
            Ghost(b),
        );
        let ghost c = Moment { reader: *self, input: *input, out: *out, check: () };
        proof {
            lemma_ran_joined(
                setup,
                p,
                q,
                m,
                b,
                c,
                match r {
                    Ok(s) => Ok(s@),
                    Err(stop) => Err(stop),
                },
            );
        }
        let block: Ghost<Progress> = r?;
        let r: Result<Ghost<Progress>, Stop> = self.member_data(input, out, Ghost(setup), block);
        proof {
            let d = Moment { reader: *self, input: *input, out: *out, check: () };
            lemma_ran_joined(
                setup,
                p,
                block@,
                m,
                c,
                d,
                match r {
                    Ok(s) => Ok(s@),
                    Err(stop) => Err(stop),
                },
            );
        }
        r
    }

    /// Decodes the data of a gzip member, and its trailer.
    fn member_data<I: Input, O: Output>(
        &mut self,
        input: &mut I,
        out: &mut O,
        Ghost(setup): Ghost<Setup>,
        Ghost(p): Ghost<Progress>,
    ) -> (r: Result<Ghost<Progress>, Stop>)
        requires
            (Moment { reader: *old(self), input: *old(input), out: *old(out), check: () }).at(setup, p),
            p.state is Block,
            p.gzip,
            p.start == p.out.len(),
            (*old(out)).checked() == (*old(out)).history().len(),
            setup.verify == O::VERIFY,
            setup.kind !is Raw,
        ensures
            &*final((*final(out)).place()) == &*final((*old(out)).place()),
            &*final((*final(input)).place()) == &*final((*old(input)).place()),
            ran(
                setup,
                p,
                Moment { reader: *old(self), input: *old(input), out: *old(out), check: () },
                Moment { reader: *final(self), input: *final(input), out: *final(out), check: () },
                match r {
                    Ok(q) => Ok(q@),
                    Err(stop) => Err(stop),
                },
            ),
            match r {
                Ok(q) => q@.state is Next && (*final(out)).checked() == (*final(out)).history().len(),
                Err(_) => true,
            },
    {
        let mut check: Crc32 = Crc32::new();
        let start: u64 = out.written();
        let ghost m = Moment { reader: *self, input: *input, out: *out, check: () };
        let ghost from = Moment { reader: *self, input: *input, out: *out, check };
        let r: Result<Ghost<Progress>, Stop> = self.inflate(
            input,
            out,
            &mut check,
            false,
            Ghost(setup),
            Ghost(p),
        );
        let ghost a = Moment { reader: *self, input: *input, out: *out, check: () };
        proof {
            let to = Moment { reader: *self, input: *input, out: *out, check };
            lemma_ran_alone(
                setup,
                p,
                from,
                to,
                match r {
                    Ok(s) => Ok(s@),
                    Err(stop) => Err(stop),
                },
            );
        }
        let sum: Ghost<Progress> = r?;
        let ghost data = (*out).history().skip(p.start);
        proof {
            if O::VERIFY {
                assert((*out).history().subrange(p.start, (*out).history().len() as int) =~= data);
                Crc32::lemma_sum(data);
            }
        }

        let ghost first = (*self, *input);
        proof {
            lemma_moved_nothing(*self, *input);
        }
        let r: Result<u32, Stop> = self.word(input, Ghost(first));
        let ghost b = Moment { reader: *self, input: *input, out: *out, check: () };
        proof {
            lemma_at_checksum(setup, sum@);
            lemma_ran_told(
                setup,
                p,
                sum@,
                m,
                a,
                b,
                match r {
                    Ok(crc) => Ok(State::Size(crc)),
                    Err(stop) => Err(stop),
                },
            );
        }
        let crc: u32 = r?;
        let ghost q = step(setup, self.taken@, sum@)->0;

        let ghost first = (*self, *input);
        proof {
            lemma_moved_nothing(*self, *input);
        }
        let r: Result<u32, Stop> = self.word(input, Ghost(first));
        let written: u64 = out.written();
        let r: Result<State, Stop> = match r {
            Err(stop) => Err(stop),
            Ok(size) => if (O::VERIFY && crc != check.value()) || size as u64 != (written - start)
                % 0x1_0000_0000 {
                Err(Stop::Fail(Error::ChecksumMismatch))
            } else {
                Ok(State::Next)
            },
        };
        proof {
            let c = Moment { reader: *self, input: *input, out: *out, check: () };
            lemma_at_size(setup, q);
            lemma_ran_told(setup, p, q, m, b, c, r);
        }
        r?;
        Ok(Ghost(step(setup, self.taken@, q)->0))
    }

    /// Decodes a gzip stream, past the first byte of its header.
    fn gzip<I: Input, O: Output>(
        &mut self,
        input: &mut I,
        out: &mut O,
        Ghost(setup): Ghost<Setup>,
        Ghost(p): Ghost<Progress>,
    ) -> (r: Result<(), Error>)
        requires
            (Moment { reader: *old(self), input: *old(input), out: *old(out), check: () }).at(setup, p),
            p.state is Member,
            p.marks.contains(p.out.len() as int),
            setup.verify == O::VERIFY,
            setup.kind !is Raw,
        ensures
            &*final((*final(out)).place()) == &*final((*old(out)).place()),
            &*final((*final(input)).place()) == &*final((*old(input)).place()),
            finished(
                setup,
                p,
                Moment { reader: *old(self), input: *old(input), out: *old(out), check: () },
                Moment { reader: *final(self), input: *final(input), out: *final(out), check: () },
                r,
            ),
    {
        let ghost m = Moment { reader: *self, input: *input, out: *out, check: () };
        let ghost mut n = m;
        let ghost mut q = p;
        proof {
            lemma_ran_nothing(setup, p, m);
        }
        loop
            invariant
                &*final((*out).place()) == &*final((*old(out)).place()),
                &*final((*input).place()) == &*final((*old(input)).place()),
                m == (Moment { reader: *old(self), input: *old(input), out: *old(out), check: () }),
                m.out.sound(),
                p.out == m.out.history(),
                n == (Moment { reader: *self, input: *input, out: *out, check: () }),
                n.at(setup, q),
                ran(setup, p, m, n, Ok(q)),
                q.state is Member,
                q.marks.contains(q.out.len() as int),
                setup.verify == O::VERIFY,
                setup.kind !is Raw,
            decreases 8 * self.left + self.bit_cnt,
        {
            let r: Result<Ghost<Progress>, Stop> = self.member(input, out, Ghost(setup), Ghost(q));
            let ghost a = Moment { reader: *self, input: *input, out: *out, check: () };
            proof {
                lemma_ran_joined(
                    setup,
                    p,
                    q,
                    m,
                    n,
                    a,
                    match r {
                        Ok(s) => Ok(s@),
                        Err(stop) => Err(stop),
                    },
                );
            }
            match r {
                Err(stop) => {
                    proof {
                        lemma_ran_finished(setup, p, m, a, stop);
                    }
                    return Err(stop.error());
                },
                Ok(s) => {
                    proof {
                        q = s@;
                    }
                },
            }
            // Another member may follow. Anything else is ignored, as gzip
            // does with trailing padding.
            let ghost first = (*self, *input);
            proof {
                lemma_moved_nothing(*self, *input);
                lemma_small_powers();
                lemma_at_next(setup, q);
            }
            let r: Result<u16, Stop> = self.next_bits(input, 8, Ghost(first));
            proof {
                n = Moment { reader: *self, input: *input, out: *out, check: () };
            }
            match r {
                Ok(byte) => if byte == 0x1f {
                    proof {
                        lemma_ran_told(setup, p, q, m, a, n, Ok(State::Member));
                        q = step(setup, self.taken@, q)->0;
                    }
                } else {
                    proof {
                        lemma_ran_told(setup, p, q, m, a, n, Ok(State::Done));
                        lemma_ran_done(setup, p, step(setup, self.taken@, q)->0, m, n);
                    }
                    return Ok(());
                },
                Err(stop) => {
                    let error: Error = stop.error();
                    proof {
                        lemma_ran_last(setup, p, q, m, a, n, error);
                    }
                    if error == Error::UnexpectedEof {
                        return Ok(());
                    }
                    return Err(error);
                },
            }
        }
    }

    /// Decodes a zlib stream, past its header.
    fn zlib<I: Input, O: Output>(
        &mut self,
        input: &mut I,
        out: &mut O,
        Ghost(setup): Ghost<Setup>,
        Ghost(p): Ghost<Progress>,
    ) -> (r: Result<Ghost<Progress>, Stop>)
        requires
            (Moment { reader: *old(self), input: *old(input), out: *old(out), check: () }).at(setup, p),
            p.state is Block,
            !p.gzip,
            p.start == p.out.len(),
            p.marks.contains(p.out.len() as int),
            setup.verify == O::VERIFY,
            setup.kind !is Raw,
        ensures
            &*final((*final(out)).place()) == &*final((*old(out)).place()),
            &*final((*final(input)).place()) == &*final((*old(input)).place()),
            ran(
                setup,
                p,
                Moment { reader: *old(self), input: *old(input), out: *old(out), check: () },
                Moment { reader: *final(self), input: *final(input), out: *final(out), check: () },
                match r {
                    Ok(q) => Ok(q@),
                    Err(stop) => Err(stop),
                },
            ),
            match r {
                Ok(q) => q@.state is Done && (*final(out)).checked() == (*final(out)).history().len(),
                Err(_) => true,
            },
    {
        let ghost m = Moment { reader: *self, input: *input, out: *out, check: () };
        // What was there before is not part of the stream.
        proof {
            (*out).bounds();
        }
        let mut nothing: () = ();
        let r: Result<(), Error> = out.flush(&mut nothing);
        let ghost a = Moment { reader: *self, input: *input, out: *out, check: () };
        proof {
            lemma_ran_flush(setup, p, m, a, r);
        }
        if let Err(error) = r {
            return Err(Stop::Fail(error));
        }
        let mut check: Adler32 = Adler32::new();
        let ghost from = Moment { reader: *self, input: *input, out: *out, check };
        let r: Result<Ghost<Progress>, Stop> = self.inflate(
            input,
            out,
            &mut check,
            false,
            Ghost(setup),
            Ghost(p),
        );
        let ghost b = Moment { reader: *self, input: *input, out: *out, check: () };
        proof {
            let to = Moment { reader: *self, input: *input, out: *out, check };
            let end = match r {
                Ok(s) => Ok(s@),
                Err(stop) => Err(stop),
            };
            lemma_ran_alone(setup, p, from, to, end);
            lemma_ran_joined(setup, p, p, m, a, b, end);
        }
        let sum: Ghost<Progress> = r?;
        let ghost data = (*out).history().skip(p.start);
        proof {
            if O::VERIFY {
                assert((*out).history().subrange(p.start, (*out).history().len() as int) =~= data);
                Adler32::lemma_sum(data);
            }
        }

        let ghost first = (*self, *input);
        proof {
            lemma_moved_nothing(*self, *input);
        }
        let r: Result<u32, Stop> = self.word(input, Ghost(first));
        let r: Result<State, Stop> = match r {
            Err(stop) => Err(stop),
            Ok(adler) => if O::VERIFY && adler != swap(check.value()) {
                Err(Stop::Fail(Error::ChecksumMismatch))
            } else {
                Ok(State::Done)
            },
        };
        proof {
            lemma_at_checksum(setup, sum@);
            let c = Moment { reader: *self, input: *input, out: *out, check: () };
            lemma_ran_told(setup, p, sum@, m, b, c, r);
        }
        r?;
        Ok(Ghost(step(setup, self.taken@, sum@)->0))
    }
}

/// What comes of decompressing a stream, from the input and output as they
/// were, `ia` and `oa`, to what they are then, `ib` and `ob`.
pub open spec fn decoded<I: Input, O: Output>(
    kind: Kind,
    ia: I,
    ib: I,
    oa: O,
    ob: O,
    r: Result<(), Error>,
) -> bool {
    &&& ib.ready()
    &&& same_output(oa, ob)
    // Everything was delivered.
    &&& r is Ok ==> ob.checked() == ob.history().len()
    &&& exists|taken: Seq<u8>| #[trigger] decoded_from(kind, taken, ia, ib, oa, ob, r)
}

/// Whether all of `taken` is needed to tell what becomes of a stream: nothing
/// that it starts with ends, or cannot be decoded.
pub open spec fn shortest(setup: Setup, taken: Seq<u8>, out: Seq<u8>) -> bool {
    forall|n: int|
        0 <= n < taken.len() ==> !halted(#[trigger] advance(setup, taken.take(n), origin(out)))
}

proof fn lemma_shortest(setup: Setup, taken: Seq<u8>, out: Seq<u8>)
    requires
        bit_len(taken) < advance(setup, taken, origin(out)).pos + 8,
    ensures
        shortest(setup, taken, out),
{
    let p = origin(out);
    assert forall|n: int| 0 <= n < taken.len() implies !halted(
        #[trigger] advance(setup, taken.take(n), p),
    ) by {
        let (some, more) = (taken.take(n), taken.skip(n));
        assert(some + more =~= taken);
        lemma_advance_joined(setup, some, more, p);
        lemma_advance_within(setup, some, p);
        if halted(advance(setup, some, p)) {
            lemma_halted_stays(setup, taken, advance(setup, some, p));
        }
    }
}

/// What comes of decompressing a stream, `taken` being what was taken from
/// the input.
pub open spec fn decoded_from<I: Input, O: Output>(
    kind: Kind,
    taken: Seq<u8>,
    ia: I,
    ib: I,
    oa: O,
    ob: O,
    r: Result<(), Error>,
) -> bool {
    let setup = Setup { kind, verify: O::verifies(), terms: oa.terms() };
    let end = advance(setup, taken, origin(oa.history()));
    // The output was only to be delivered where the stream, or a member of it,
    // starts or ends.
    &&& ob.flushes().subset_of(oa.flushes().union(end.marks))
    &&& outcome_from(kind, taken, ia, ib, oa, ob, r)
}

/// What the outcome of decompressing a stream tells, `taken` being what was
/// taken from the input.
pub open spec fn outcome_from<I: Input, O: Output>(
    kind: Kind,
    taken: Seq<u8>,
    ia: I,
    ib: I,
    oa: O,
    ob: O,
    r: Result<(), Error>,
) -> bool {
    let setup = Setup { kind, verify: O::verifies(), terms: oa.terms() };
    let end = advance(setup, taken, origin(oa.history()));
    // The stream ended, or cannot be decoded, and nothing past that was taken.
    ||| {
        &&& ia.yields(taken, ib)
        &&& shortest(setup, taken, oa.history())
        &&& end.pos <= bit_len(taken) < end.pos + 8
        &&& ob.history() == end.out
        &&& match end.state {
            State::Done => bit_len(taken) == end.pos && r is Ok,
            State::Failed(error) => r == Err::<(), Error>(error),
            _ => false,
        }
    }
    // The destination of the output failed on its own, with something to be
    // delivered.
    ||| {
        &&& ia.yields(taken, ib)
        &&& r is Err
        &&& oa.faults().contains(r->Err_0)
        &&& oa.history().is_prefix_of(ob.history())
        &&& ob.history().is_prefix_of(end.out)
        &&& oa.checked() < end.out.len()
        &&& end.state !is Start
    }
    // The input failed, or ended, which only a gzip stream that may or may
    // not have other members makes nothing of.
    ||| exists|error: Error|
        {
            &&& #[trigger] runs_dry(ia, taken, error, ib)
            &&& !halted(end)
            &&& ob.history() == end.out
            &&& r == if end.state is Next && error == Error::UnexpectedEof {
                Ok::<(), Error>(())
            } else {
                Err(error)
            }
        }
}

/// Decompresses a stream from `input` to `out`.
#[verifier::spinoff_prover]
#[verifier::rlimit(60)]
pub fn decode<I: Input, O: Output>(kind: Kind, input: &mut I, out: &mut O) -> (r: Result<(), Error>)
    requires
        (*old(input)).ready(),
        (*old(out)).sound(),
    ensures
        &*final((*final(out)).place()) == &*final((*old(out)).place()),
        &*final((*final(input)).place()) == &*final((*old(input)).place()),
        decoded(kind, *old(input), *final(input), *old(out), *final(out), r),
{
    let mut reader: Inflate = Inflate::new();
    let ghost setup = Setup { kind, verify: O::verifies(), terms: (*out).terms() };
    let ghost p = origin((*out).history());
    let ghost m = Moment { reader, input: *input, out: *out, check: () };
    proof {
        O::verifies_so();
        (*out).bounds();
        reveal(in_place);
        reveal(fits);
    }
    let r: Result<State, Stop> = reader.start(input, kind, Ghost(setup), Ghost(p));
    let ghost n = Moment { reader, input: *input, out: *out, check: () };
    proof {
        lemma_told_ran(setup, p, m, n, r);
    }
    let ghost q = step(setup, reader.taken@, p)->0;
    let r: Result<(), Error> = match r {
        Err(stop) => {
            proof {
                lemma_ran_finished(setup, p, m, n, stop);
            }
            Err(stop.error())
        },
        Ok(State::Member) => {
            proof {
                lemma_at_start(setup, p);
            }
            let r: Result<(), Error> = reader.gzip(input, out, Ghost(setup), Ghost(q));
            proof {
                let o = Moment { reader, input: *input, out: *out, check: () };
                lemma_finished_joined(setup, p, q, m, n, o, r);
            }
            r
        },
        Ok(_) => {
            proof {
                lemma_at_start(setup, p);
            }
            let r: Result<Ghost<Progress>, Stop> = if let Kind::Raw = kind {
                let mut nothing: () = ();
                reader.inflate(input, out, &mut nothing, true, Ghost(setup), Ghost(q))
            } else {
                reader.zlib(input, out, Ghost(setup), Ghost(q))
            };
            let ghost o = Moment { reader, input: *input, out: *out, check: () };
            proof {
                let end = match r {
                    Ok(s) => Ok(s@),
                    Err(stop) => Err(stop),
                };
                lemma_ran_joined(setup, p, q, m, n, o, end);
            }
            match r {
                Err(stop) => {
                    proof {
                        lemma_ran_finished(setup, p, m, o, stop);
                    }
                    Err(stop.error())
                },
                Ok(s) => {
                    proof {
                        lemma_ran_done(setup, p, s@, m, o);
                    }
                    Ok(())
                },
            }
        },
    };
    proof {
        let o = Moment { reader, input: *input, out: *out, check: () };
        lemma_finished_decoded(kind, m, o, r);
    }
    r
}

/// Starting from scratch, all the steps there are decompress a stream.
proof fn lemma_finished_decoded<I: Input, O: Output>(
    kind: Kind,
    m: Moment<I, O, ()>,
    n: Moment<I, O, ()>,
    r: Result<(), Error>,
)
    requires
        m.out.sound(),
        m.reader.taken@ == Seq::<u8>::empty(),
        m.reader.bit_cnt == 0,
        m.reader.left == INPUT_LIMIT,
        finished(
            Setup { kind, verify: O::verifies(), terms: m.out.terms() },
            origin(m.out.history()),
            m,
            n,
            r,
        ),
    ensures
        decoded(kind, m.input, n.input, m.out, n.out, r),
{
    let setup = Setup { kind, verify: O::verifies(), terms: m.out.terms() };
    let p = origin(m.out.history());
    let taken = n.reader.taken@;
    let end = advance(setup, taken, p);
    m.out.bounds();
    assert(orderly(setup, p)) by {
        reveal(in_place);
        reveal(fits);
    }
    lemma_advance_orderly(setup, taken, p);
    reveal(in_place);
    reveal(fits);
    assert(taken.skip(0) =~= taken);
    if bit_len(taken) < end.pos + 8 {
        lemma_shortest(setup, taken, m.out.history());
    }
    assert forall|error: Error| #[trigger]
        starved(m.reader, m.input, n.reader, n.input, error) implies runs_dry(
        m.input,
        taken,
        error,
        n.input,
    ) by {}
    assert(decoded_from(kind, taken, m.input, n.input, m.out, n.out, r));
}

/// What comes of decompressing a stream, and of counting the bytes that this
/// produces.
pub open spec fn produced<I: Input, O: Output>(
    kind: Kind,
    ia: I,
    ib: I,
    oa: O,
    ob: O,
    r: Result<u64, Error>,
) -> bool {
    match r {
        Ok(len) => {
            &&& decoded(kind, ia, ib, oa, ob, Ok(()))
            &&& len == ob.history().len() - oa.history().len()
        },
        Err(error) => decoded(kind, ia, ib, oa, ob, Err(error)),
    }
}

/// Decompresses a stream. Returns the number of bytes produced.
pub fn run<I: Input, O: Output>(kind: Kind, input: I, output: O) -> (r: Result<u64, Error>)
    requires
        input.ready(),
        output.sound(),
    ensures
        exists|ib: I, ob: O|
            #![trigger produced(kind, input, ib, output, ob, r)]
            produced(kind, input, ib, output, ob, r)
                && has_resolved(ib) && has_resolved(ob)
                && &*final(ib.place()) == &*final(input.place())
                && &*final(ob.place()) == &*final(output.place()),
{
    let mut input_now: I = input;
    let mut output_now: O = output;
    let start: u64 = output_now.written();
    let r: Result<(), Error> = decode(kind, &mut input_now, &mut output_now);
    proof {
        lemma_decoded_grows(kind, input, input_now, output, output_now, r);
        if let Ok(nothing) = r {
            assert(nothing == ());
        }
    }
    let r: Result<u64, Error> = match r {
        Ok(()) => Ok(output_now.written() - start),
        Err(error) => Err(error),
    };
    assert(produced(kind, input, input_now, output, output_now, r));
    r
}

/// Decompressing only adds to the output.
pub proof fn lemma_decoded_grows<I: Input, O: Output>(
    kind: Kind,
    ia: I,
    ib: I,
    oa: O,
    ob: O,
    r: Result<(), Error>,
)
    requires
        decoded(kind, ia, ib, oa, ob, r),
    ensures
        oa.history().is_prefix_of(ob.history()),
{
    let taken = choose|taken: Seq<u8>| #[trigger] decoded_from(kind, taken, ia, ib, oa, ob, r);
    let setup = Setup { kind, verify: O::verifies(), terms: oa.terms() };
    lemma_advance_forward(setup, taken, origin(oa.history()));
}

/// What a [`Counter`] that gives up past `max_len` takes.
pub open spec fn counting(max_len: u64) -> Terms {
    Terms { most: max_len as int, reach: max_len as int, partial: false }
}

/// What comes of finding the length that a stream decompresses to.
pub open spec fn measured<I: Input>(kind: Kind, max_len: u64, ia: I, ib: I, r: Result<u64, Error>) -> bool {
    ib.ready() && exists|taken: Seq<u8>| #[trigger] measured_from(kind, max_len, taken, ia, ib, r)
}

/// What comes of finding the length that a stream decompresses to, `taken`
/// being what was taken from the input.
pub open spec fn measured_from<I: Input>(
    kind: Kind,
    max_len: u64,
    taken: Seq<u8>,
    ia: I,
    ib: I,
    r: Result<u64, Error>,
) -> bool {
    let setup = Setup { kind, verify: false, terms: counting(max_len) };
    let end = advance(setup, taken, origin(Seq::empty()));
    // The stream ended, or cannot be decoded, and nothing past that was taken.
    ||| {
        &&& ia.yields(taken, ib)
        &&& shortest(setup, taken, Seq::empty())
        &&& end.pos <= bit_len(taken) < end.pos + 8
        &&& match end.state {
            State::Done => bit_len(taken) == end.pos && r == Ok::<u64, Error>(end.out.len() as u64),
            State::Failed(error) => r == Err::<u64, Error>(error),
            _ => false,
        }
    }
    // The input failed, or ended, which only a gzip stream that may or may
    // not have other members makes nothing of.
    ||| exists|error: Error|
        {
            &&& #[trigger] runs_dry(ia, taken, error, ib)
            &&& !halted(end)
            &&& r == if end.state is Next && error == Error::UnexpectedEof {
                Ok::<u64, Error>(end.out.len() as u64)
            } else {
                Err(error)
            }
        }
}

/// Returns the length a stream decompresses to.
pub fn count<I: Input>(kind: Kind, input: I, max_len: u64) -> (r: Result<u64, Error>)
    requires
        input.ready(),
    ensures
        exists|ib: I| #[trigger] measured(kind, max_len, input, ib, r) && has_resolved(ib)
            && &*final(ib.place()) == &*final(input.place()),
{
    let counter: Counter = Counter::new(max_len);
    let r: Result<u64, Error> = run(kind, input, counter);
    proof {
        let (ib, ob) = choose|ib: I, ob: Counter|
            #![trigger produced(kind, input, ib, counter, ob, r)]
            produced(kind, input, ib, counter, ob, r) && has_resolved(ib)
                && &*final(ib.place()) == &*final(input.place());
        let done = match r {
            Ok(_) => Ok(()),
            Err(error) => Err(error),
        };
        ob.bounds();
        let taken = choose|taken: Seq<u8>| #[trigger] decoded_from(kind, taken, input, ib, counter, ob, done);
        assert(counter.terms() == counting(max_len));
        assert(measured_from(kind, max_len, taken, input, ib, r));
        assert(measured(kind, max_len, input, ib, r));
    }
    r
}

} // verus!
