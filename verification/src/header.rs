//! The headers and trailers of gzip (RFC 1952) and zlib (RFC 1950) streams.

use vstd::arithmetic::power2::{lemma2_to64, pow2};
use vstd::prelude::*;

use crate::bits::lemma_number_split;
use crate::course::told;
use crate::decoding::{
    lemma_at_fields, lemma_at_member, lemma_at_skip, lemma_at_start, read, step, zlib_fault, Kind,
    Progress, Setup, State, FCOMMENT, FDICT, FEXTRA, FHCRC, FNAME, RESERVED,
};
use crate::error::Error;
use crate::input::Input;
use crate::reader::{goes_on, lemma_moved_nothing, moved, starved, Inflate, Stop};
use crate::steps::lemma_small_powers;

verus! {

impl Inflate {
    /// Reads 32 bits, least significant first, in the course of something that
    /// started at `first`.
    pub fn word<I: Input>(&mut self, input: &mut I, Ghost(first): Ghost<(Inflate, I)>) -> (r: Result<
        u32,
        Stop,
    >)
        requires
            moved(first.0, first.1, *old(self), *old(input)),
        ensures
            &*final((*final(input)).place()) == &*final((*old(input)).place()),
            goes_on(old(self).taken@, final(self).taken@),
            match r {
                Ok(value) => {
                    &&& moved(first.0, first.1, *final(self), *final(input))
                    &&& final(self).pos() == old(self).pos() + 32
                    &&& read(final(self).taken@, old(self).pos(), 32) == Some(value as nat)
                },
                Err(Stop::Input(error)) => {
                    &&& starved(first.0, first.1, *final(self), *final(input), error)
                    &&& read(final(self).taken@, old(self).pos(), 32) is None
                },
                Err(Stop::Fail(_)) => false,
            },
    {
        proof {
            assert(pow2(16) == 65536) by {
                lemma2_to64();
            }
        }
        let low: u16 = self.next_bits(input, 16, Ghost(first))?;
        let high: u16 = self.next_bits(input, 16, Ghost(first))?;
        proof {
            lemma_number_split(self.taken@, old(self).pos(), 16, 16);
            assert(read(self.taken@, old(self).pos(), 16) == Some(low as nat));
        }
        Ok(high as u32 * 65536 + low as u32)
    }

    /// Reads the rest of a zlib header, past its first byte, in the course of
    /// something that started at `start`.
    pub fn zlib_flags<I: Input>(
        &mut self,
        input: &mut I,
        first: u8,
        Ghost(start): Ghost<(Inflate, I)>,
    ) -> (r: Result<(), Stop>)
        requires
            moved(start.0, start.1, *old(self), *old(input)),
        ensures
            &*final((*final(input)).place()) == &*final((*old(input)).place()),
            goes_on(old(self).taken@, final(self).taken@),
            ({
                let flags = read(final(self).taken@, old(self).pos(), 8);
                match r {
                    Ok(_) => {
                        &&& moved(start.0, start.1, *final(self), *final(input))
                        &&& final(self).pos() == old(self).pos() + 8
                        &&& flags is Some
                        &&& zlib_fault(first as nat, flags->0) is None
                    },
                    Err(Stop::Input(error)) => {
                        &&& starved(start.0, start.1, *final(self), *final(input), error)
                        &&& flags is None
                    },
                    Err(Stop::Fail(error)) => {
                        &&& moved(start.0, start.1, *final(self), *final(input))
                        &&& final(self).pos() == old(self).pos() + 8
                        &&& flags is Some
                        &&& zlib_fault(first as nat, flags->0) == Some(error)
                    },
                }
            }),
    {
        proof {
            lemma_small_powers();
        }
        let flags: u16 = self.next_bits(input, 8, Ghost(start))?;
        if (first as u16 * 256 + flags) % 31 != 0 {
            return Err(Stop::Fail(Error::InvalidHeader));
        }
        // Deflate with a window of at most 32 KiB, and no preset dictionary.
        if first % 16 != 8 || first / 16 > 7 || flags & FDICT != 0 {
            return Err(Stop::Fail(Error::Unsupported));
        }
        Ok(())
    }

    /// Reads the first byte of a header, and the whole of a zlib one.
    pub fn start<I: Input>(
        &mut self,
        input: &mut I,
        kind: Kind,
        Ghost(setup): Ghost<Setup>,
        Ghost(p): Ghost<Progress>,
    ) -> (r: Result<State, Stop>)
        requires
            old(self).sound(),
            (*old(input)).ready(),
            p.pos == old(self).pos(),
            p.state is Start,
            kind == setup.kind,
        ensures
            &*final((*final(input)).place()) == &*final((*old(input)).place()),
            told(setup, p, *old(self), *old(input), *final(self), *final(input), r),
            r matches Ok(state) ==> state is Member || state is Block,
    {
        let ghost start = (*self, *input);
        proof {
            lemma_moved_nothing(*self, *input);
            lemma_small_powers();
            lemma_at_start(setup, p);
        }
        if let Kind::Raw = kind {
            return Ok(State::Block);
        }
        let first: u16 = self.next_bits(input, 8, Ghost(start))?;
        let gzip: bool = match kind {
            Kind::Gzip => true,
            Kind::Detect => first == 0x1f,
            _ => false,
        };
        if gzip {
            if first != 0x1f {
                return Err(Stop::Fail(Error::InvalidHeader));
            }
            return Ok(State::Member);
        }
        self.zlib_flags(input, first as u8, Ghost(start))?;
        Ok(State::Block)
    }

    /// Reads the fixed part of a gzip header, past its first byte and up to
    /// its flags, which get returned.
    pub fn member_head<I: Input>(
        &mut self,
        input: &mut I,
        Ghost(setup): Ghost<Setup>,
        Ghost(p): Ghost<Progress>,
    ) -> (r: Result<u16, Stop>)
        requires
            old(self).sound(),
            (*old(input)).ready(),
            p.pos == old(self).pos(),
            p.state is Member,
        ensures
            &*final((*final(input)).place()) == &*final((*old(input)).place()),
            told(
                setup,
                p,
                *old(self),
                *old(input),
                *final(self),
                *final(input),
                match r {
                    Ok(flags) => Ok(State::Skip(6, flags)),
                    Err(stop) => Err(stop),
                },
            ),
            r is Ok ==> {
                let q = step(setup, final(self).taken@, p)->0;
                q.gzip && q.start == p.out.len()
            },
    {
        let ghost start = (*self, *input);
        proof {
            lemma_moved_nothing(*self, *input);
            lemma_small_powers();
            lemma_at_member(setup, p);
        }
        let id: u16 = self.next_bits(input, 8, Ghost(start))?;
        if id != 0x8b {
            return Err(Stop::Fail(Error::InvalidHeader));
        }
        let method: u16 = self.next_bits(input, 8, Ghost(start))?;
        if method != 8 {
            return Err(Stop::Fail(Error::Unsupported));
        }
        let flags: u16 = self.next_bits(input, 8, Ghost(start))?;
        if flags & RESERVED != 0 {
            return Err(Stop::Fail(Error::InvalidHeader));
        }
        Ok(flags)
    }

    /// Skips a byte of a gzip header, or reads some of its optional fields.
    pub fn header_item<I: Input>(
        &mut self,
        input: &mut I,
        state: State,
        Ghost(setup): Ghost<Setup>,
        Ghost(p): Ghost<Progress>,
    ) -> (r: Result<State, Stop>)
        requires
            old(self).sound(),
            (*old(input)).ready(),
            p.pos == old(self).pos(),
            p.state == state,
            state is Skip || state is Fields,
        ensures
            &*final((*final(input)).place()) == &*final((*old(input)).place()),
            told(setup, p, *old(self), *old(input), *final(self), *final(input), r),
            r matches Ok(next) ==> next is Skip || next is Fields || next is Block,
    {
        let ghost start = (*self, *input);
        proof {
            lemma_moved_nothing(*self, *input);
            lemma_small_powers();
            if state is Skip {
                lemma_at_skip(setup, p);
            } else {
                lemma_at_fields(setup, p);
            }
        }
        match state {
            State::Skip(bytes, flags) => {
                if bytes == 0 {
                    return Ok(State::Fields(flags));
                }
                self.next_bits(input, 8, Ghost(start))?;
                Ok(State::Skip(bytes - 1, flags))
            },
            State::Fields(flags) => {
                if flags & FEXTRA != 0 {
                    let len: u16 = self.next_bits(input, 16, Ghost(start))?;
                    Ok(State::Skip(len, flags & !FEXTRA))
                } else if flags & FNAME != 0 || flags & FCOMMENT != 0 {
                    // The name then the comment, a byte at a time up to a
                    // zero, which clears the lower one of their flags.
                    let byte: u16 = self.next_bits(input, 8, Ghost(start))?;
                    if byte != 0 {
                        Ok(State::Fields(flags))
                    } else if flags & FNAME != 0 {
                        Ok(State::Fields(flags & !FNAME))
                    } else {
                        Ok(State::Fields(flags & !FCOMMENT))
                    }
                } else if flags & FHCRC != 0 {
                    // The header CRC is not verified: gzip never writes one.
                    Ok(State::Skip(2, flags & !FHCRC))
                } else {
                    Ok(State::Block)
                }
            },
            _ => Ok(state),
        }
    }
}

} // verus!
