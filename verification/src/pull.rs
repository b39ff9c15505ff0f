//! The pull decoder: asks the input for what it needs, and returns once done.

use vstd::prelude::*;

use crate::checksum::Checksum;
use crate::course::{
    lemma_made_ran, lemma_ran_joined, lemma_ran_made, lemma_ran_nothing, lemma_ran_told,
    lemma_told_ran, ran, Moment,
};
use crate::decoding::{
    block_ended, fits, fixed_dist_code, fixed_len_code, in_place, lemma_at_block,
    lemma_at_code_lengths, lemma_at_lengths, lemma_at_stored, placed, step, step_block,
    step_code_lengths, step_lengths, Progress, Setup, State,
};
use crate::error::Error;
use crate::inflate::{fixed_lengths, lemma_closed_made, lemma_placed_bound, Block, Symbol, Tables};
use crate::input::Input;
use crate::output::Output;
use crate::reader::{lemma_moved_nothing, Inflate, Stop};
use crate::steps::lemma_step_keeps;

verus! {

impl Inflate {
    /// Decodes a stored block, past its header.
    fn stored<I: Input, O: Output, C: Checksum>(
        &mut self,
        input: &mut I,
        out: &mut O,
        check: &mut C,
        last: bool,
        raw: bool,
        Ghost(setup): Ghost<Setup>,
        Ghost(p): Ghost<Progress>,
    ) -> (r: Result<Ghost<Progress>, Stop>)
        requires
            (Moment { reader: *old(self), input: *old(input), out: *old(out), check: *old(check) }).at(setup, p),
            p.state is StoredLen,
            last == p.last,
            raw == (setup.kind is Raw),
        ensures
            &*final((*final(out)).place()) == &*final((*old(out)).place()),
            &*final((*final(input)).place()) == &*final((*old(input)).place()),
            ran(
                setup,
                p,
                Moment { reader: *old(self), input: *old(input), out: *old(out), check: *old(check) },
                Moment { reader: *final(self), input: *final(input), out: *final(out), check: *final(check) },
                match r {
                    Ok(q) => Ok(q@),
                    Err(stop) => Err(stop),
                },
            ),
            match r {
                Ok(q) => {
                    &&& q@.state == between(last, raw)
                    &&& same_member(p, q@)
                    &&& last ==> (*final(out)).checked() == (*final(out)).history().len()
                },
                Err(_) => true,
            },
    {
        let ghost m = Moment { reader: *self, input: *input, out: *out, check: *check };
        let r: Result<u16, Stop> = self.stored_len(input, Ghost(setup), Ghost(p));
        let ghost mut n = Moment { reader: *self, input: *input, out: *out, check: *check };
        proof {
            lemma_told_ran(
                setup,
                p,
                m,
                n,
                match r {
                    Ok(len) => Ok(State::Stored(len)),
                    Err(stop) => Err(stop),
                },
            );
        }
        let mut bytes: u16 = r?;
        let ghost mut q = step(setup, self.taken@, p)->0;
        proof {
            lemma_step_keeps(setup, self.taken@, p);
        }
        while bytes > 0
            invariant
                &*final((*out).place()) == &*final((*old(out)).place()),
                &*final((*input).place()) == &*final((*old(input)).place()),
                m == (Moment { reader: *old(self), input: *old(input), out: *old(out), check: *old(check) }),
                m.out.sound(),
                p.out == m.out.history(),
                n == (Moment { reader: *self, input: *input, out: *out, check: *check }),
                n.at(setup, q),
                ran(setup, p, m, n, Ok(q)),
                q.state == State::Stored(bytes),
                same_member(p, q),
            decreases bytes,
        {
            let r: Result<(), Stop> = self.stored_byte(input, out, check, Ghost(setup), Ghost(q));
            proof {
                let o = Moment { reader: *self, input: *input, out: *out, check: *check };
                lemma_ran_made(
                    setup,
                    p,
                    q,
                    m,
                    n,
                    o,
                    match r {
                        Ok(_) => Ok(State::Stored((bytes - 1) as u16)),
                        Err(stop) => Err(stop),
                    },
                );
                if r is Ok {
                    lemma_step_keeps(setup, self.taken@, q);
                }
                n = o;
                q = step(setup, self.taken@, q)->0;
            }
            r?;
            bytes = bytes - 1;
        }
        let r: Result<State, Stop> = self.block_end(input, out, check, last, raw, Ghost(setup), Ghost(q));
        proof {
            let o = Moment { reader: *self, input: *input, out: *out, check: *check };
            lemma_moved_nothing(n.reader, n.input);
            assert(step(setup, n.reader.taken@, q) == Some(block_ended(setup, q))) by {
                lemma_at_stored(setup, q);
            }
            lemma_closed_made(setup, q, n, n, o, r);
            lemma_ran_made(setup, p, q, m, n, o, r);
            if r is Ok {
                lemma_step_keeps(setup, self.taken@, q);
            }
            q = step(setup, self.taken@, q)->0;
        }
        r?;
        Ok(Ghost(q))
    }

    /// Decodes a literal or a match of a compressed block, or its end, and
    /// tells whether it was the end.
    fn item<I: Input, O: Output, C: Checksum>(
        &mut self,
        input: &mut I,
        out: &mut O,
        check: &mut C,
        tables: &Tables,
        last: bool,
        raw: bool,
        Ghost(setup): Ghost<Setup>,
        Ghost(p): Ghost<Progress>,
    ) -> (r: Result<(bool, Ghost<Progress>), Stop>)
        requires
            (Moment { reader: *old(self), input: *old(input), out: *old(out), check: *old(check) }).at(setup, p),
            p.state is Length,
            tables.len.is(p.len_code),
            tables.dist.is(p.dist_code),
            last == p.last,
            raw == (setup.kind is Raw),
        ensures
            &*final((*final(out)).place()) == &*final((*old(out)).place()),
            &*final((*final(input)).place()) == &*final((*old(input)).place()),
            ran(
                setup,
                p,
                Moment { reader: *old(self), input: *old(input), out: *old(out), check: *old(check) },
                Moment { reader: *final(self), input: *final(input), out: *final(out), check: *final(check) },
                match r {
                    Ok((_, q)) => Ok(q@),
                    Err(stop) => Err(stop),
                },
            ),
            match r {
                Ok((ended, q)) => {
                    &&& same_member(p, q@)
                    &&& old(self).pos() < final(self).pos()
                    &&& !ended ==> {
                        &&& q@.state is Length
                        &&& q@.len_code == p.len_code
                        &&& q@.dist_code == p.dist_code
                    }
                    &&& ended ==> {
                        &&& q@.state == between(last, raw)
                        &&& last ==> (*final(out)).checked() == (*final(out)).history().len()
                    }
                },
                Err(_) => true,
            },
    {
        let ghost m = Moment { reader: *self, input: *input, out: *out, check: *check };
        let r: Result<Symbol, Stop> = self.length(input, out, check, &tables.len, Ghost(setup), Ghost(p));
        let ghost n = Moment { reader: *self, input: *input, out: *out, check: *check };
        match r {
            Ok(Symbol::Literal) => {
                proof {
                    lemma_made_ran(setup, p, m, n, Ok(State::Length));
                    lemma_step_keeps(setup, self.taken@, p);
                }
                Ok((false, Ghost(step(setup, self.taken@, p)->0)))
            },
            Ok(Symbol::End) => {
                let ghost ended = Progress { pos: self.pos(), ..p };
                proof {
                    reveal(in_place);
                    reveal(fits);
                }
                let r: Result<State, Stop> = self.block_end(
                    input,
                    out,
                    check,
                    last,
                    raw,
                    Ghost(setup),
                    Ghost(ended),
                );
                proof {
                    let o = Moment { reader: *self, input: *input, out: *out, check: *check };
                    lemma_closed_made(setup, p, m, n, o, r);
                    lemma_made_ran(setup, p, m, o, r);
                    if r is Ok {
                        lemma_step_keeps(setup, self.taken@, p);
                    }
                }
                r?;
                Ok((true, Ghost(step(setup, self.taken@, p)->0)))
            },
            Ok(Symbol::Match(len)) => {
                let ghost q = step(setup, self.taken@, p)->0;
                proof {
                    lemma_made_ran(setup, p, m, n, Ok(State::Distance(len)));
                    lemma_step_keeps(setup, self.taken@, p);
                }
                let r: Result<(), Stop> = self.distance(
                    input,
                    out,
                    check,
                    &tables.dist,
                    len,
                    Ghost(setup),
                    Ghost(q),
                );
                proof {
                    let o = Moment { reader: *self, input: *input, out: *out, check: *check };
                    lemma_ran_made(
                        setup,
                        p,
                        q,
                        m,
                        n,
                        o,
                        match r {
                            Ok(_) => Ok(State::Length),
                            Err(stop) => Err(stop),
                        },
                    );
                    if r is Ok {
                        lemma_step_keeps(setup, self.taken@, q);
                    }
                }
                r?;
                Ok((false, Ghost(step(setup, self.taken@, q)->0)))
            },
            Err(stop) => {
                proof {
                    lemma_made_ran(setup, p, m, n, Err(stop));
                }
                Err(stop)
            },
        }
    }

    /// Decodes a compressed block, past its header, given its two codes.
    fn compressed<I: Input, O: Output, C: Checksum>(
        &mut self,
        input: &mut I,
        out: &mut O,
        check: &mut C,
        tables: &Tables,
        last: bool,
        raw: bool,
        Ghost(setup): Ghost<Setup>,
        Ghost(p): Ghost<Progress>,
    ) -> (r: Result<Ghost<Progress>, Stop>)
        requires
            (Moment { reader: *old(self), input: *old(input), out: *old(out), check: *old(check) }).at(setup, p),
            p.state is Length,
            tables.len.is(p.len_code),
            tables.dist.is(p.dist_code),
            last == p.last,
            raw == (setup.kind is Raw),
        ensures
            &*final((*final(out)).place()) == &*final((*old(out)).place()),
            &*final((*final(input)).place()) == &*final((*old(input)).place()),
            ran(
                setup,
                p,
                Moment { reader: *old(self), input: *old(input), out: *old(out), check: *old(check) },
                Moment { reader: *final(self), input: *final(input), out: *final(out), check: *final(check) },
                match r {
                    Ok(q) => Ok(q@),
                    Err(stop) => Err(stop),
                },
            ),
            match r {
                Ok(q) => {
                    &&& q@.state == between(last, raw)
                    &&& same_member(p, q@)
                    &&& last ==> (*final(out)).checked() == (*final(out)).history().len()
                },
                Err(_) => true,
            },
    {
        let ghost m = Moment { reader: *self, input: *input, out: *out, check: *check };
        let ghost mut n = m;
        let ghost mut q = p;
        proof {
            lemma_ran_nothing(setup, p, m);
        }
        loop
            invariant
                &*final((*out).place()) == &*final((*old(out)).place()),
                &*final((*input).place()) == &*final((*old(input)).place()),
                m == (Moment { reader: *old(self), input: *old(input), out: *old(out), check: *old(check) }),
                m.out.sound(),
                p.out == m.out.history(),
                n == (Moment { reader: *self, input: *input, out: *out, check: *check }),
                n.at(setup, q),
                ran(setup, p, m, n, Ok(q)),
                q.state is Length,
                tables.len.is(q.len_code),
                tables.dist.is(q.dist_code),
                same_member(p, q),
                last == p.last,
                raw == (setup.kind is Raw),
            decreases 8 * self.left + self.bit_cnt,
        {
            let r: Result<(bool, Ghost<Progress>), Stop> = self.item(
                input,
                out,
                check,
                tables,
                last,
                raw,
                Ghost(setup),
                Ghost(q),
            );
            proof {
                let o = Moment { reader: *self, input: *input, out: *out, check: *check };
                lemma_ran_joined(
                    setup,
                    p,
                    q,
                    m,
                    n,
                    o,
                    match r {
                        Ok((_, next)) => Ok(next@),
                        Err(stop) => Err(stop),
                    },
                );
                n = o;
            }
            let (ended, next) = r?;
            if ended {
                return Ok(next);
            }
            proof {
                q = next@;
            }
        }
    }

    /// Decodes a block compressed with the fixed codes, past its header.
    fn fixed<I: Input, O: Output, C: Checksum>(
        &mut self,
        input: &mut I,
        out: &mut O,
        check: &mut C,
        last: bool,
        raw: bool,
        Ghost(setup): Ghost<Setup>,
        Ghost(p): Ghost<Progress>,
    ) -> (r: Result<Ghost<Progress>, Stop>)
        requires
            (Moment { reader: *old(self), input: *old(input), out: *old(out), check: *old(check) }).at(setup, p),
            p.state is Length,
            p.len_code == fixed_len_code(),
            p.dist_code == fixed_dist_code(),
            last == p.last,
            raw == (setup.kind is Raw),
        ensures
            &*final((*final(out)).place()) == &*final((*old(out)).place()),
            &*final((*final(input)).place()) == &*final((*old(input)).place()),
            ran(
                setup,
                p,
                Moment { reader: *old(self), input: *old(input), out: *old(out), check: *old(check) },
                Moment { reader: *final(self), input: *final(input), out: *final(out), check: *final(check) },
                match r {
                    Ok(q) => Ok(q@),
                    Err(stop) => Err(stop),
                },
            ),
            match r {
                Ok(q) => {
                    &&& q@.state == between(last, raw)
                    &&& same_member(p, q@)
                    &&& last ==> (*final(out)).checked() == (*final(out)).history().len()
                },
                Err(_) => true,
            },
    {
        let mut lengths: [u8; 320] = [0; 320];
        let mut tables: Tables = Tables::new();
        fixed_lengths(&mut lengths);
        proof {
            assert(lengths@.take(288) =~= fixed_len_code());
            assert(lengths@.subrange(288, 320) =~= fixed_dist_code());
        }
        let _ = tables.build(&lengths, 288, 320);
        self.compressed(input, out, check, &tables, last, raw, Ghost(setup), Ghost(p))
    }

    /// Decodes a block compressed with codes of its own, past its header.
    fn dynamic<I: Input, O: Output, C: Checksum>(
        &mut self,
        input: &mut I,
        out: &mut O,
        check: &mut C,
        symbols: (usize, usize, usize),
        last: bool,
        raw: bool,
        Ghost(setup): Ghost<Setup>,
        Ghost(p): Ghost<Progress>,
    ) -> (r: Result<Ghost<Progress>, Stop>)
        requires
            (Moment { reader: *old(self), input: *old(input), out: *old(out), check: *old(check) }).at(setup, p),
            p.state == State::CodeLengths(0),
            p.len_syms == symbols.0,
            p.syms == symbols.0 + symbols.1,
            p.code_syms == symbols.2,
            last == p.last,
            raw == (setup.kind is Raw),
        ensures
            &*final((*final(out)).place()) == &*final((*old(out)).place()),
            &*final((*final(input)).place()) == &*final((*old(input)).place()),
            ran(
                setup,
                p,
                Moment { reader: *old(self), input: *old(input), out: *old(out), check: *old(check) },
                Moment { reader: *final(self), input: *final(input), out: *final(out), check: *final(check) },
                match r {
                    Ok(q) => Ok(q@),
                    Err(stop) => Err(stop),
                },
            ),
            match r {
                Ok(q) => {
                    &&& q@.state == between(last, raw)
                    &&& same_member(p, q@)
                    &&& last ==> (*final(out)).checked() == (*final(out)).history().len()
                },
                Err(_) => true,
            },
    {
        let (len_syms, dist_syms, code_syms) = symbols;
        let ghost m = Moment { reader: *self, input: *input, out: *out, check: *check };
        let ghost mut n = m;
        let ghost mut q = p;
        proof {
            lemma_ran_nothing(setup, p, m);
        }
        let mut lengths: [u8; 320] = [0; 320];
        let mut index: usize = 0;
        assert(lengths@.take(19) =~= placed(q.lengths, 0));
        while index < code_syms
            invariant
                &*final((*out).place()) == &*final((*old(out)).place()),
                &*final((*input).place()) == &*final((*old(input)).place()),
                m == (Moment { reader: *old(self), input: *old(input), out: *old(out), check: *old(check) }),
                m.out.sound(),
                p.out == m.out.history(),
                n == (Moment { reader: *self, input: *input, out: *out, check: *check }),
                n.at(setup, q),
                ran(setup, p, m, n, Ok(q)),
                q.state == State::CodeLengths(index),
                index <= code_syms,
                lengths@.take(19) == placed(q.lengths, q.lengths.len()),
                q.len_syms == len_syms,
                q.syms == len_syms + dist_syms,
                q.code_syms == code_syms,
                same_member(p, q),
            decreases code_syms - index,
        {
            let r: Result<(), Stop> = self.code_length(input, &mut lengths, index, Ghost(setup), Ghost(q));
            proof {
                let o = Moment { reader: *self, input: *input, out: *out, check: *check };
                lemma_ran_told(
                    setup,
                    p,
                    q,
                    m,
                    n,
                    o,
                    match r {
                        Ok(_) => Ok(State::CodeLengths((index + 1) as usize)),
                        Err(stop) => Err(stop),
                    },
                );
                if r is Ok {
                    lemma_step_keeps(setup, self.taken@, q);
                }
                n = o;
                q = step(setup, self.taken@, q)->0;
            }
            r?;
            index += 1;
        }

        let mut tables: Tables = Tables::new();
        proof {
            lemma_placed_bound(q.lengths, q.lengths.len());
            assert forall|s: int| 0 <= s < 19 implies #[trigger] lengths@[s] <= 15 by {
                assert(lengths@.take(19)[s] <= 15);
            }
            lemma_moved_nothing(n.reader, n.input);
            assert(step(setup, n.reader.taken@, q) == step_code_lengths(n.reader.taken@, q)) by {
                lemma_at_code_lengths(setup, q);
            }
        }
        if !tables.build_first(&lengths) {
            proof {
                lemma_ran_told(setup, p, q, m, n, n, Err(Stop::Fail(Error::InvalidCode)));
            }
            return Err(Stop::Fail(Error::InvalidCode));
        }
        proof {
            lemma_ran_told(setup, p, q, m, n, n, Ok(State::Lengths(0)));
            q = step(setup, self.taken@, q)->0;
            assert(lengths@.take(0) =~= q.lengths);
        }

        // Literal/length code lengths, directly followed by the distance ones.
        let syms: usize = len_syms + dist_syms;
        index = 0;
        while index < syms
            invariant
                &*final((*out).place()) == &*final((*old(out)).place()),
                &*final((*input).place()) == &*final((*old(input)).place()),
                m == (Moment { reader: *old(self), input: *old(input), out: *old(out), check: *old(check) }),
                m.out.sound(),
                p.out == m.out.history(),
                n == (Moment { reader: *self, input: *input, out: *out, check: *check }),
                n.at(setup, q),
                ran(setup, p, m, n, Ok(q)),
                q.state == State::Lengths(index),
                index <= syms,
                lengths@.take(index as int) == q.lengths,
                tables.len.is(q.len_code),
                q.len_syms == len_syms,
                syms == len_syms + dist_syms,
                q.syms == syms,
                same_member(p, q),
            decreases syms - index,
        {
            let r: Result<usize, Stop> = self.code_lengths(
                input,
                &tables.len,
                &mut lengths,
                index,
                syms,
                Ghost(setup),
                Ghost(q),
            );
            proof {
                let o = Moment { reader: *self, input: *input, out: *out, check: *check };
                lemma_ran_told(
                    setup,
                    p,
                    q,
                    m,
                    n,
                    o,
                    match r {
                        Ok(end) => Ok(State::Lengths(end)),
                        Err(stop) => Err(stop),
                    },
                );
                if r is Ok {
                    lemma_step_keeps(setup, self.taken@, q);
                }
                n = o;
                q = step(setup, self.taken@, q)->0;
            }
            index = r?;
        }

        proof {
            assert forall|s: int| 0 <= s < syms implies #[trigger] lengths@[s] <= 15 by {
                assert(lengths@.take(syms as int)[s] <= 15);
            }
            assert(q.lengths[256] == lengths@[256]);
            assert(q.lengths.take(len_syms as int) =~= lengths@.take(len_syms as int));
            assert(q.lengths.skip(len_syms as int) =~= lengths@.subrange(len_syms as int, syms as int));
            lemma_moved_nothing(n.reader, n.input);
            assert(step(setup, n.reader.taken@, q) == step_lengths(n.reader.taken@, q)) by {
                lemma_at_lengths(setup, q);
            }
        }
        // A block without an end-of-block code could never finish.
        if lengths[256] == 0 || !tables.build(&lengths, len_syms, syms) {
            proof {
                lemma_ran_told(setup, p, q, m, n, n, Err(Stop::Fail(Error::InvalidCode)));
            }
            return Err(Stop::Fail(Error::InvalidCode));
        }
        proof {
            lemma_ran_told(setup, p, q, m, n, n, Ok(State::Length));
            q = step(setup, self.taken@, q)->0;
        }
        let r: Result<Ghost<Progress>, Stop> = self.compressed(
            input,
            out,
            check,
            &tables,
            last,
            raw,
            Ghost(setup),
            Ghost(q),
        );
        proof {
            let o = Moment { reader: *self, input: *input, out: *out, check: *check };
            lemma_ran_joined(
                setup,
                p,
                q,
                m,
                n,
                o,
                match r {
                    Ok(end) => Ok(end@),
                    Err(stop) => Err(stop),
                },
            );
        }
        r
    }

    /// Decodes one raw deflate stream and flushes the output. Leaves the input
    /// right after the stream, on a byte boundary.
    pub fn inflate<I: Input, O: Output, C: Checksum>(
        &mut self,
        input: &mut I,
        out: &mut O,
        check: &mut C,
        raw: bool,
        Ghost(setup): Ghost<Setup>,
        Ghost(p): Ghost<Progress>,
    ) -> (r: Result<Ghost<Progress>, Stop>)
        requires
            (Moment { reader: *old(self), input: *old(input), out: *old(out), check: *old(check) }).at(setup, p),
            p.state is Block,
            raw == (setup.kind is Raw),
        ensures
            &*final((*final(out)).place()) == &*final((*old(out)).place()),
            &*final((*final(input)).place()) == &*final((*old(input)).place()),
            ran(
                setup,
                p,
                Moment { reader: *old(self), input: *old(input), out: *old(out), check: *old(check) },
                Moment { reader: *final(self), input: *final(input), out: *final(out), check: *final(check) },
                match r {
                    Ok(q) => Ok(q@),
                    Err(stop) => Err(stop),
                },
            ),
            match r {
                Ok(q) => {
                    &&& q@.state == between(true, raw)
                    &&& q@.gzip == p.gzip
                    &&& q@.start == p.start
                    &&& (*final(out)).checked() == (*final(out)).history().len()
                },
                Err(_) => true,
            },
    {
        let ghost m = Moment { reader: *self, input: *input, out: *out, check: *check };
        let ghost mut n = m;
        let ghost mut q = p;
        proof {
            lemma_ran_nothing(setup, p, m);
        }
        loop
            invariant
                &*final((*out).place()) == &*final((*old(out)).place()),
                &*final((*input).place()) == &*final((*old(input)).place()),
                m == (Moment { reader: *old(self), input: *old(input), out: *old(out), check: *old(check) }),
                m.out.sound(),
                p.out == m.out.history(),
                n == (Moment { reader: *self, input: *input, out: *out, check: *check }),
                n.at(setup, q),
                ran(setup, p, m, n, Ok(q)),
                q.state is Block,
                q.gzip == p.gzip,
                q.start == p.start,
                raw == (setup.kind is Raw),
            decreases 8 * self.left + self.bit_cnt,
        {
            let ghost head = q;
            let r: Result<(bool, Block), Stop> = self.block_head(input, Ghost(setup), Ghost(q));
            proof {
                let o = Moment { reader: *self, input: *input, out: *out, check: *check };
                lemma_ran_told(
                    setup,
                    p,
                    q,
                    m,
                    n,
                    o,
                    match r {
                        Ok((_, block)) => Ok(block.state()),
                        Err(stop) => Err(stop),
                    },
                );
                if r is Ok {
                    lemma_step_keeps(setup, self.taken@, q);
                }
                n = o;
                q = step(setup, self.taken@, q)->0;
            }
            let (last, block) = r?;
            proof {
                assert(step(setup, self.taken@, head) == step_block(self.taken@, head)) by {
                    lemma_at_block(setup, head);
                }
            }
            let r: Result<Ghost<Progress>, Stop> = match block {
                Block::Stored => self.stored(input, out, check, last, raw, Ghost(setup), Ghost(q)),
                Block::Fixed => self.fixed(input, out, check, last, raw, Ghost(setup), Ghost(q)),
                Block::Dynamic(len_syms, dist_syms, code_syms) => self.dynamic(
                    input,
                    out,
                    check,
                    (len_syms, dist_syms, code_syms),
                    last,
                    raw,
                    Ghost(setup),
                    Ghost(q),
                ),
            };
            proof {
                let o = Moment { reader: *self, input: *input, out: *out, check: *check };
                let end = match r {
                    Ok(end) => Ok(end@),
                    Err(stop) => Err(stop),
                };
                lemma_ran_joined(setup, p, q, m, n, o, end);
                n = o;
            }
            let end: Ghost<Progress> = r?;
            proof {
                q = end@;
            }
            if last {
                return Ok(end);
            }
        }
    }
}

/// What comes after a block.
pub open spec fn between(last: bool, raw: bool) -> State {
    if !last {
        State::Block
    } else if raw {
        State::Done
    } else {
        State::Checksum
    }
}

/// Decoding is still about the same stream, and gzip member.
pub open spec fn same_member(p: Progress, q: Progress) -> bool {
    &&& q.gzip == p.gzip
    &&& q.start == p.start
    &&& q.last == p.last
}

} // verus!
