//! Input sources.

use vstd::prelude::*;
use vstd::std_specs::iter::IteratorSpec;

use crate::error::Error;

verus! {

/// A source of compressed bytes.
///
/// Implemented for `&[u8]` (buffer in), [`Reader`] (stream in through a
/// callback), [`Bytes`] (any byte iterator) and `&mut I`, so an input can be
/// lent to a decompression call and inspected afterwards.
///
/// The decoder never reads past the end of the compressed stream, except for
/// the single look-ahead byte it takes to detect another gzip member.
pub trait Input: Sized {
    /// What the input borrows to read from, or through, if it does.
    type Place: ?Sized;

    /// What the input borrows.
    spec fn place(&self) -> &mut Self::Place;

    /// Whether the input may be asked for a byte.
    spec fn ready(&self) -> bool;

    /// Whether handing out the bytes `run` takes this input to `after`.
    spec fn yields(self, run: Seq<u8>, after: Self) -> bool;

    /// Whether this input may fail with `error`, which takes it to `after`.
    spec fn fails(self, error: Error, after: Self) -> bool;

    /// Handing out nothing changes nothing.
    proof fn yields_nothing(self)
        ensures
            self.yields(Seq::<u8>::empty(), self),
    ;

    /// One run of bytes after another is a run of bytes.
    proof fn yields_joined(self, run: Seq<u8>, middle: Self, next: Seq<u8>, after: Self)
        requires
            self.yields(run, middle),
            middle.yields(next, after),
        ensures
            self.yields(run + next, after),
    ;

    /// Returns the next byte, or [`Error::UnexpectedEof`] at end of input.
    fn byte(&mut self) -> (r: Result<u8, Error>)
        requires
            (*old(self)).ready(),
        ensures
            (*final(self)).ready(),
            &*final((*final(self)).place()) == &*final((*old(self)).place()),
            match r {
                Ok(byte) => (*old(self)).yields(seq![byte], *final(self)),
                Err(error) => (*old(self)).fails(error, *final(self)),
            },
    ;
}

/// How many bytes a stream may have, for decoding to end whatever the input: as
/// many as 128 bits can count, which no input can ever get to.
pub const INPUT_LIMIT: u128 = 0xffff_ffff_ffff_ffff_ffff_ffff_ffff_ffff;

/// Whether the input `ia` gives no more than `taken`, which takes it to `ib`:
/// it fails with `error`, or no more bytes than can be counted are asked of
/// it.
pub open spec fn runs_dry<I: Input>(ia: I, taken: Seq<u8>, error: Error, ib: I) -> bool {
    ||| exists|i: I| #![trigger i.fails(error, ib)] ia.yields(taken, i) && i.fails(error, ib)
    ||| taken.len() == INPUT_LIMIT && error == Error::UnexpectedEof && ia.yields(taken, ib)
}

impl<I: Input> Input for &mut I {
    type Place = I;

    open spec fn place(&self) -> &mut I {
        *self
    }

    open spec fn ready(&self) -> bool {
        (**self).ready()
    }

    open spec fn yields(self, run: Seq<u8>, after: Self) -> bool {
        (*self).yields(run, *after)
    }

    open spec fn fails(self, error: Error, after: Self) -> bool {
        (*self).fails(error, *after)
    }

    proof fn yields_nothing(self) {
        (*self).yields_nothing();
    }

    proof fn yields_joined(self, run: Seq<u8>, middle: Self, next: Seq<u8>, after: Self) {
        (*self).yields_joined(run, *middle, next, *after);
    }

    fn byte(&mut self) -> (r: Result<u8, Error>) {
        (**self).byte()
    }
}

/// Buffer in. The slice is advanced past the consumed bytes, so passing
/// `&mut slice` leaves the unconsumed remainder in `slice`.
impl Input for &[u8] {
    type Place = ();

    open spec fn place(&self) -> &mut () {
        arbitrary()
    }

    open spec fn ready(&self) -> bool {
        true
    }

    open spec fn yields(self, run: Seq<u8>, after: Self) -> bool {
        self@ == run + after@
    }

    open spec fn fails(self, error: Error, after: Self) -> bool {
        self@.len() == 0 && error == Error::UnexpectedEof && after@ == self@
    }

    proof fn yields_nothing(self) {
        assert(self@ =~= Seq::<u8>::empty() + self@);
    }

    proof fn yields_joined(self, run: Seq<u8>, middle: Self, next: Seq<u8>, after: Self) {
        assert(self@ =~= run + next + after@);
    }

    fn byte(&mut self) -> (r: Result<u8, Error>) {
        let data: &[u8] = *self;
        if data.len() == 0 {
            return Err(Error::UnexpectedEof);
        }
        let byte: u8 = data[0];
        *self = vstd::slice::slice_subrange(data, 1, data.len());
        assert(data@ =~= seq![byte] + self@);
        Ok(byte)
    }
}

/// Stream in: pulls compressed data through a callback into a caller-supplied
/// scratch buffer of any non-zero size.
///
/// The callback fills the buffer it is given and returns the number of bytes
/// written, `Ok(0)` meaning end of input. It may fail with any [`Error`],
/// typically [`Error::Io`].
///
/// A `Reader` reads ahead: once decompression is done, [`Reader::buffered`]
/// holds whatever was fetched past the end of the compressed stream.
pub struct Reader<'b, F> {
    buf: &'b mut [u8],
    pos: usize,
    len: usize,
    handed: Ghost<Seq<u8>>,
    fetched: Ghost<Seq<u8>>,
    read: F,
}

impl<'b, F: FnMut(&mut [u8]) -> Result<usize, Error>> Reader<'b, F> {
    /// The bytes handed out so far.
    pub closed spec fn handed(&self) -> Seq<u8> {
        self.handed@
    }

    /// The bytes fetched from the callback so far.
    pub closed spec fn fetched(&self) -> Seq<u8> {
        self.fetched@
    }

    /// The bytes fetched but not handed out yet, unless the callback claimed
    /// more than the scratch buffer holds.
    pub open spec fn ahead(&self) -> Seq<u8> {
        if self.fitting() {
            self.pending()
        } else {
            Seq::<u8>::empty()
        }
    }

    /// Whether the scratch buffer holds all that the callback claimed.
    pub open spec fn fitting(&self) -> bool {
        self.next() + self.claimed() <= self.scratch().len()
    }

    /// The bytes to be handed out before the callback is asked for more.
    pub open spec fn pending(&self) -> Seq<u8> {
        let end = self.next() + self.claimed();
        self.scratch().subrange(
            self.next(),
            if end <= self.scratch().len() {
                end
            } else {
                self.scratch().len() as int
            },
        )
    }

    /// What was fetched is what was handed out, and what is still to be.
    pub proof fn lemma_fetched(&self)
        requires
            self.ready(),
        ensures
            self.fetched() == self.handed() + self.pending(),
            0 <= self.next() <= self.scratch().len(),
            0 <= self.claimed(),
    {
    }

    /// The scratch buffer.
    pub closed spec fn scratch(&self) -> Seq<u8> {
        self.buf@
    }

    /// Where in the scratch buffer the next byte is.
    pub closed spec fn next(&self) -> int {
        self.pos as int
    }

    /// How many of the bytes that the callback claimed are still to come.
    pub closed spec fn claimed(&self) -> int {
        self.len - self.pos
    }

    /// The callback.
    pub closed spec fn source(&self) -> F {
        self.read
    }

    /// Creates a reader using `buf` as scratch space.
    pub fn new(buf: &'b mut [u8], read: F) -> (r: Self)
        requires
            forall|space: &mut [u8]| call_requires(read, (space,)),
        ensures
            r.ready(),
            r.handed() == Seq::<u8>::empty(),
            r.fetched() == Seq::<u8>::empty(),
            r.scratch() == old(buf)@,
            r.next() == 0,
            r.claimed() == 0,
            r.source() == read,
            &*final(r.place()) == &*final(buf),
    {
        assert(Seq::<u8>::empty() + buf@.subrange(0, 0) =~= Seq::<u8>::empty());
        Reader { buf, pos: 0, len: 0, handed: Ghost(Seq::empty()), fetched: Ghost(Seq::empty()), read }
    }

    /// Bytes fetched from the callback but not consumed yet.
    pub fn buffered(&self) -> (r: &[u8])
        requires
            self.ready(),
        ensures
            r@ == self.ahead(),
    {
        if self.len <= self.buf.len() {
            vstd::slice::slice_subrange(self.buf, self.pos, self.len)
        } else {
            &[]
        }
    }
}

/// Whether the callback can have given `answer` when asked to fill `scratch`.
pub open spec fn asked<F: FnMut(&mut [u8]) -> Result<usize, Error>>(
    source: F,
    scratch: Seq<u8>,
    answer: Result<usize, Error>,
) -> bool {
    exists|space: &mut [u8]| (*space)@ == scratch && #[trigger] call_ensures(source, (space,), answer)
}

/// Whether the callback never claims more bytes than it was given room for.
pub open spec fn modest<F: FnMut(&mut [u8]) -> Result<usize, Error>>(source: F) -> bool {
    forall|space: &mut [u8], len: usize| #[trigger]
        call_ensures(source, (space,), Ok(len)) ==> len <= (*space)@.len()
}

/// How many bytes the callback claims, `room` being what it was given and
/// `scratch` what came of that.
pub open spec fn claim(answer: Result<usize, Error>, room: nat, scratch: Seq<u8>) -> int {
    match answer {
        Ok(len) => if scratch.len() == room {
            len as int
        } else {
            0
        },
        Err(_) => 0,
    }
}

/// The bytes that an answer of the callback stands for, as far as the scratch
/// buffer holds what it claims.
pub open spec fn brought(answer: Result<usize, Error>, room: nat, scratch: Seq<u8>) -> Seq<u8> {
    let len = claim(answer, room, scratch);
    if len <= scratch.len() {
        scratch.take(len)
    } else {
        scratch
    }
}

/// What comes of asking the callback for more, given its answer and what is in
/// the scratch buffer then.
pub open spec fn answered(answer: Result<usize, Error>, room: nat, scratch: Seq<u8>) -> Result<u8, Error> {
    match answer {
        _ if scratch.len() != room => Err(Error::Io),
        Err(error) => Err(error),
        Ok(len) => if len == 0 {
            Err(Error::UnexpectedEof)
        } else if scratch.len() == 0 {
            Err(Error::Io)
        } else {
            Ok(scratch[0])
        },
    }
}

impl<F: FnMut(&mut [u8]) -> Result<usize, Error>> Input for Reader<'_, F> {
    type Place = [u8];

    closed spec fn place(&self) -> &mut [u8] {
        self.buf
    }

    closed spec fn ready(&self) -> bool {
        &&& forall|space: &mut [u8]| call_requires(self.read, (space,))
        &&& self.pos <= self.buf@.len()
        &&& self.pos <= self.len
        &&& self.fetched@ == self.handed@ + self.pending()
    }

    open spec fn yields(self, run: Seq<u8>, after: Self) -> bool {
        &&& after.source() == self.source()
        &&& after.handed() == self.handed() + run
        &&& self.fetched().is_prefix_of(after.fetched())
        &&& after.scratch().len() == self.scratch().len()
        &&& modest(self.source()) && self.fitting() ==> after.fitting()
    }

    open spec fn fails(self, error: Error, after: Self) -> bool {
        &&& after.source() == self.source()
        &&& after.handed() == self.handed()
        &&& after.fetched() == self.fetched()
        &&& modest(self.source()) && self.fitting() ==> after.fitting()
        &&& if self.claimed() > 0 {
            self.next() >= self.scratch().len() && error == Error::Io
        } else {
            exists|answer: Result<usize, Error>| #[trigger]
                asked(self.source(), self.scratch(), answer) && answered(
                    answer,
                    self.scratch().len(),
                    after.scratch(),
                ) == Err::<u8, Error>(error)
        }
    }

    proof fn yields_nothing(self) {
        assert(self.handed() + Seq::<u8>::empty() =~= self.handed());
        assert(self.fetched() =~= self.fetched().subrange(0, self.fetched().len() as int));
    }

    proof fn yields_joined(self, run: Seq<u8>, middle: Self, next: Seq<u8>, after: Self) {
        assert(self.handed() + run + next =~= self.handed() + (run + next));
        assert(self.fetched() =~= after.fetched().subrange(0, self.fetched().len() as int));
    }

    fn byte(&mut self) -> (r: Result<u8, Error>)
        ensures
            old(self).ahead().len() > 0 ==> {
                &&& r == Ok::<u8, Error>(old(self).ahead()[0])
                &&& final(self).ahead() == old(self).ahead().drop_first()
            },
            // What the callback claimed is handed out first, as far as the
            // scratch buffer goes.
            old(self).claimed() > 0 ==> {
                &&& final(self).scratch() == old(self).scratch()
                &&& final(self).fetched() == old(self).fetched()
                &&& final(self).next() + final(self).claimed() == old(self).next() + old(self).claimed()
                &&& final(self).next() == old(self).next() + (if r is Ok {
                    1int
                } else {
                    0
                })
                &&& r == if old(self).next() < old(self).scratch().len() {
                    Ok::<u8, Error>(old(self).scratch()[old(self).next()])
                } else {
                    Err(Error::Io)
                }
            },
            // Then it is asked for more, to be found in the scratch buffer.
            old(self).claimed() <= 0 ==> exists|space: &mut [u8], answer: Result<usize, Error>| #[trigger]
                call_ensures(old(self).source(), (space,), answer) && (*space)@ == old(self).scratch()
                    && (*final(space))@ == final(self).scratch() && r == answered(
                    answer,
                    old(self).scratch().len(),
                    final(self).scratch(),
                ) && final(self).fetched() == old(self).fetched() + brought(
                    answer,
                    old(self).scratch().len(),
                    final(self).scratch(),
                ) && final(self).next() + final(self).claimed() == claim(
                    answer,
                    old(self).scratch().len(),
                    final(self).scratch(),
                ) && final(self).next() == (if r is Ok {
                    1int
                } else {
                    0
                }),
    {
        if self.pos >= self.len {
            self.pos = 0;
            self.len = 0;
            let room: usize = self.buf.len();
            let answer: Result<usize, Error> = (self.read)(self.buf);
            let ghost more = brought(answer, room as nat, self.buf@);
            self.fetched = Ghost(self.fetched@ + more);
            proof {
                assert(asked(old(self).source(), old(self).scratch(), answer));
                assert(old(self).pending() =~= Seq::<u8>::empty());
                assert(old(self).fetched() =~= old(self).handed());
                assert(old(self).fetched() + Seq::<u8>::empty() =~= old(self).fetched());
                assert(self.buf@.subrange(0, 0) =~= Seq::<u8>::empty());
                assert(self.buf@.take(0) =~= Seq::<u8>::empty());
                assert(self.buf@ =~= self.buf@.subrange(0, self.buf@.len() as int));
                assert(self.buf@.len() == 0 ==> more =~= Seq::<u8>::empty());
                assert(old(self).fetched() =~= self.fetched@.subrange(0, old(self).fetched().len() as int));
            }
            // No callback can make a slice longer or shorter, whatever else it
            // may do to it.
            if self.buf.len() != room {
                return Err(Error::Io);
            }
            self.len = answer?;
            if self.len == 0 {
                return Err(Error::UnexpectedEof);
            }
        }
        // Fails only if the callback claimed more bytes than the buffer holds.
        if self.pos >= self.buf.len() {
            return Err(Error::Io);
        }
        let byte: u8 = self.buf[self.pos];
        let ghost pending = (*self).pending();
        self.pos += 1;
        self.handed = Ghost(self.handed@.push(byte));
        proof {
            assert(self.handed() =~= old(self).handed() + seq![byte]);
            assert(pending =~= seq![byte] + (*self).pending());
            assert(old(self).handed() + pending =~= self.handed() + (*self).pending());
            assert(old(self).ahead().len() > 0 ==> self.ahead() =~= old(self).ahead().drop_first());
            assert(old(self).fetched() =~= self.fetched().subrange(0, old(self).fetched().len() as int));
        }
        Ok(byte)
    }
}

/// Stream in from any iterator over bytes.
///
/// What an iterator is yet to hand out is only to be told of it one byte at a
/// time: [`byte`](Input::byte) does, of an iterator that keeps to the laws that
/// are stated of them, and [`yields`](Input::yields) does not.
pub struct Bytes<T>(pub T);

impl<T: Iterator<Item = u8>> Input for Bytes<T> {
    type Place = ();

    open spec fn place(&self) -> &mut () {
        arbitrary()
    }

    open spec fn ready(&self) -> bool {
        true
    }

    open spec fn yields(self, run: Seq<u8>, after: Self) -> bool {
        true
    }

    open spec fn fails(self, error: Error, after: Self) -> bool {
        error == Error::UnexpectedEof
    }

    proof fn yields_nothing(self) {
    }

    proof fn yields_joined(self, run: Seq<u8>, middle: Self, next: Seq<u8>, after: Self) {
    }

    fn byte(&mut self) -> (r: Result<u8, Error>)
        ensures
            IteratorSpec::obeys_prophetic_iter_laws(&final(self).0) == IteratorSpec::obeys_prophetic_iter_laws(
                &old(self).0,
            ),
            IteratorSpec::obeys_prophetic_iter_laws(&old(self).0) ==> {
                let coming = IteratorSpec::remaining(&old(self).0);
                if coming.len() > 0 {
                    &&& r == Ok::<u8, Error>(coming[0])
                    &&& IteratorSpec::remaining(&final(self).0) == coming.drop_first()
                } else {
                    &&& r == Err::<u8, Error>(Error::UnexpectedEof)
                    &&& IteratorSpec::remaining(&final(self).0) == coming
                }
            },
    {
        match self.0.next() {
            Some(byte) => Ok(byte),
            None => Err(Error::UnexpectedEof),
        }
    }
}

} // verus!
