//! The compressor, for pieces of any size.

use vstd::prelude::*;

use crate::decoding::Kind;
use crate::deflate::{lemma_sent_more, lemma_stream_starts, sent, Compressor};
use crate::encoding::{body_bits, chunk_bits, packed, stream_bits};
use crate::error::Error;
use crate::format::Format;
use crate::output::{joined, Output};

verus! {

/// The chunks of `size` bytes that `data` is made of, from its start.
pub open spec fn full_chunks(data: Seq<u8>, size: nat) -> Seq<Seq<u8>>
    decreases data.len(),
{
    if size == 0 || data.len() < size {
        Seq::empty()
    } else {
        seq![data.take(size as int)] + full_chunks(data.skip(size as int), size)
    }
}

/// What comes after the last of these.
pub open spec fn remainder(data: Seq<u8>, size: nat) -> Seq<u8>
    decreases data.len(),
{
    if size == 0 || data.len() < size {
        data
    } else {
        remainder(data.skip(size as int), size)
    }
}

/// The chunks that pieces make once a buffer of `size` bytes has gathered
/// them, those that are complete. Without a buffer, each piece is one.
pub open spec fn gathered(pieces: Seq<Seq<u8>>, size: nat) -> Seq<Seq<u8>> {
    if size == 0 {
        pieces
    } else {
        full_chunks(joined(pieces), size)
    }
}

/// What is still in the buffer then.
pub open spec fn waiting(pieces: Seq<Seq<u8>>, size: nat) -> Seq<u8> {
    if size == 0 {
        Seq::empty()
    } else {
        remainder(joined(pieces), size)
    }
}

/// All the chunks that pieces make in the end.
pub open spec fn regrouped(pieces: Seq<Seq<u8>>, size: nat) -> Seq<Seq<u8>> {
    if waiting(pieces, size).len() == 0 {
        gathered(pieces, size)
    } else {
        gathered(pieces, size).push(waiting(pieces, size))
    }
}

/// What was written of a stream, given its chunks so far: nothing before the
/// first.
pub open spec fn bits_so_far(kind: Kind, entries: nat, chunks: Seq<Seq<u8>>) -> Seq<bool> {
    if chunks.len() == 0 {
        Seq::empty()
    } else {
        body_bits(kind, entries, chunks)
    }
}

/// What more data makes goes on from what is left over.
pub proof fn lemma_chunks_go_on(data: Seq<u8>, more: Seq<u8>, size: nat)
    requires
        size > 0,
    ensures
        full_chunks(data + more, size) == full_chunks(data, size) + full_chunks(
            remainder(data, size) + more,
            size,
        ),
        remainder(data + more, size) == remainder(remainder(data, size) + more, size),
        remainder(data, size).len() < size,
    decreases data.len(),
{
    if data.len() < size {
        assert(Seq::<Seq<u8>>::empty() + full_chunks(data + more, size) =~= full_chunks(data + more, size));
    } else {
        let (head, tail) = (data.take(size as int), data.skip(size as int));
        lemma_chunks_go_on(tail, more, size);
        assert((data + more).take(size as int) =~= head);
        assert((data + more).skip(size as int) =~= tail + more);
        let rest = full_chunks(remainder(data, size) + more, size);
        assert(seq![head] + full_chunks(tail, size) + rest =~= seq![head] + (full_chunks(tail, size) + rest));
    }
}

/// What does not fill a chunk, and what just does.
proof fn lemma_one_chunk(data: Seq<u8>, size: nat)
    requires
        size > 0,
        data.len() <= size,
    ensures
        data.len() < size ==> full_chunks(data, size) == Seq::<Seq<u8>>::empty() && remainder(data, size)
            == data,
        data.len() == size ==> full_chunks(data, size) == seq![data] && remainder(data, size) == Seq::<
            u8,
        >::empty(),
{
    if data.len() == size {
        assert(data.take(size as int) =~= data);
        assert(data.skip(size as int) =~= Seq::<u8>::empty());
        assert(full_chunks(Seq::<u8>::empty(), size) == Seq::<Seq<u8>>::empty());
        assert(seq![data] + Seq::<Seq<u8>>::empty() =~= seq![data]);
        assert(remainder(Seq::<u8>::empty(), size) == Seq::<u8>::empty());
    }
}

/// More chunks only add to what is written.
pub proof fn lemma_body_grows(kind: Kind, entries: nat, chunks: Seq<Seq<u8>>, more: Seq<Seq<u8>>)
    ensures
        body_bits(kind, entries, chunks).is_prefix_of(body_bits(kind, entries, chunks + more)),
    decreases more.len(),
{
    if more.len() == 0 {
        assert(chunks + more =~= chunks);
        let body = body_bits(kind, entries, chunks);
        assert(body =~= body.subrange(0, body.len() as int));
    } else {
        let fewer = more.drop_last();
        lemma_body_grows(kind, entries, chunks, fewer);
        let (a, b, c) = (
            body_bits(kind, entries, chunks),
            body_bits(kind, entries, chunks + fewer),
            body_bits(kind, entries, chunks + more),
        );
        assert((chunks + more).drop_last() =~= chunks + fewer);
        let last = chunk_bits(entries, more.last());
        assert(c =~= b + last);
        assert(a =~= c.subrange(0, a.len() as int)) by {
            assert forall|i: int| 0 <= i < a.len() implies a[i] == c[i] by {
                assert(b.subrange(0, a.len() as int)[i] == a[i]);
            }
        }
    }
}

/// Whether what the chunks so far make is in the output.
pub open spec fn up_to_date<O: Output, F: Format>(compressor: &Compressor<'_, O, F>) -> bool {
    sent(
        compressor.origin(),
        compressor.output(),
        bits_so_far(F::kind(), compressor.entries(), compressor.chunks()),
        Ok(()),
    )
}

/// Compresses format `F`, in pieces of any size, a byte at a time if need be:
/// gathers them in a buffer, and compresses it each time it fills up, as a
/// [`Compressor`] does a chunk.
///
/// What comes out does not depend on how the data was cut, unless the buffer
/// is empty, in which case each piece is a chunk. A buffer's worth pushed at
/// once is compressed from where it is, without a copy.
pub struct BufferedCompressor<'t, 'b, O, F> {
    inner: Compressor<'t, O, F>,
    buffer: &'b mut [u8],
    filled: usize,
    pieces: Ghost<Seq<Seq<u8>>>,
}

impl<'t, 'b, O: Output, F: Format> BufferedCompressor<'t, 'b, O, F> {
    /// The output.
    pub closed spec fn output(&self) -> O {
        self.inner.output()
    }

    /// The output, as it was when the stream started.
    pub closed spec fn origin(&self) -> O {
        self.inner.origin()
    }

    /// How many entries the table has.
    pub closed spec fn entries(&self) -> nat {
        self.inner.entries()
    }

    /// The size of the buffer.
    pub closed spec fn size(&self) -> nat {
        self.buffer@.len()
    }

    /// The pieces of the stream so far.
    pub closed spec fn pieces(&self) -> Seq<Seq<u8>> {
        self.pieces@
    }

    /// The error with which the output failed, if it did.
    pub closed spec fn failed(&self) -> Option<Error> {
        self.inner.failed()
    }

    /// Whether the compressor is in order.
    pub closed spec fn sound(&self) -> bool {
        &&& self.inner.sound()
        &&& self.filled <= self.buffer@.len()
        &&& self.inner.failed() is None ==> {
            &&& self.inner.chunks() == gathered(self.pieces@, self.buffer@.len())
            &&& self.buffer@.take(self.filled as int) == waiting(self.pieces@, self.buffer@.len())
            &&& self.filled < self.buffer@.len() || self.buffer@.len() == 0
            &&& up_to_date(&self.inner)
        }
    }

    /// Starts compressing a stream to `output`, finding matches with `table`
    /// and gathering chunks in `buffer`.
    pub fn new(output: O, table: &'t mut [u16], buffer: &'b mut [u8]) -> (r: Self)
        requires
            output.sound(),
        ensures
            r.sound(),
            r.output() == output,
            r.origin() == output,
            r.entries() == old(table)@.len(),
            r.size() == old(buffer)@.len(),
            r.pieces() == Seq::<Seq<u8>>::empty(),
            r.failed() is None,
    {
        let inner: Compressor<'t, O, F> = Compressor::new(output, table);
        proof {
            lemma_nothing_sent(output);
            assert(buffer@.take(0) =~= Seq::<u8>::empty());
        }
        BufferedCompressor { inner, buffer, filled: 0, pieces: Ghost(Seq::empty()) }
    }

    /// Nothing more is to come to the output once nothing more is to come here.
    pub proof fn lemma_resolved(&self)
        ensures
            has_resolved(*self) ==> has_resolved(self.output()),
    {
        self.inner.lemma_resolved();
    }

    /// Compresses the next piece of the stream, as far as it fills the buffer.
    ///
    /// Once an error is returned, it is all that is ever returned, until the
    /// stream is finished.
    #[verifier::spinoff_prover]
    #[verifier::rlimit(60)]
    pub fn write(&mut self, piece: &[u8]) -> (r: Result<(), Error>)
        requires
            old(self).sound(),
        ensures
            final(self).sound(),
            final(self).origin() == old(self).origin(),
            final(self).output().flushes() == old(self).output().flushes(),
            &*final(final(self).output().place()) == &*final(old(self).output().place()),
            final(self).entries() == old(self).entries(),
            final(self).size() == old(self).size(),
            // Nothing gets compressed before the buffer fills up.
            old(self).failed() is None && old(self).size() > 0 && gathered(
                old(self).pieces().push(piece@),
                old(self).size(),
            ).len() == gathered(old(self).pieces(), old(self).size()).len() ==> {
                &&& r is Ok
                &&& final(self).output() == old(self).output()
            },
            match old(self).failed() {
                Some(error) => {
                    &&& r == Err::<(), Error>(error)
                    &&& final(self).failed() == old(self).failed()
                    &&& final(self).output() == old(self).output()
                },
                None => {
                    let pieces = old(self).pieces().push(piece@);
                    let chunks = gathered(pieces, old(self).size());
                    &&& sent(
                        old(self).origin(),
                        final(self).output(),
                        bits_so_far(F::kind(), old(self).entries(), chunks),
                        r,
                    )
                    &&& match r {
                        Ok(_) => final(self).failed() is None && final(self).pieces() == pieces,
                        Err(error) => final(self).failed() == Some(error),
                    }
                },
            },
    {
        if let Some(error) = self.inner.failure() {
            return Err(error);
        }
        let size: usize = self.buffer.len();
        let ghost pieces = self.pieces@.push(piece@);
        let ghost all = joined(pieces);
        proof {
            assert(pieces.drop_last() =~= self.pieces@);
        }
        self.pieces = Ghost(pieces);
        if size == 0 {
            let r: Result<(), Error> = self.inner.write(piece);
            proof {
                assert(self.buffer@.take(0) =~= Seq::<u8>::empty());
            }
            return r;
        }
        let mut rest: &[u8] = piece;
        let ghost mut done = joined(old(self).pieces@);
        while rest.len() > 0
            invariant
                size > 0,
                size == self.buffer@.len(),
                self.buffer@.len() == old(self).buffer@.len(),
                self.pieces@ == pieces,
                all == joined(pieces),
                pieces == old(self).pieces@.push(piece@),
                old(self).inner.failed() is None,
                self.inner.sound(),
                self.inner.failed() is None,
                self.inner.origin() == old(self).inner.origin(),
                self.inner.output().flushes() == old(self).inner.output().flushes(),
                &*final(self.inner.output().place()) == &*final(old(self).inner.output().place()),
                self.inner.entries() == old(self).inner.entries(),
                self.inner.chunks() == full_chunks(done, size as nat),
                self.buffer@.take(self.filled as int) == remainder(done, size as nat),
                self.filled < size,
                up_to_date(&self.inner),
                done + rest@ == all,
                full_chunks(joined(old(self).pieces@), size as nat).len() <= full_chunks(done, size as nat).len(),
                full_chunks(joined(old(self).pieces@), size as nat).len() == full_chunks(done, size as nat).len()
                    ==> self.inner.output() == old(self).inner.output(),
            decreases rest@.len(),
        {
            let ghost before = done;
            let ghost tail = rest@;
            if self.filled == 0 && rest.len() >= size {
                let chunk: &[u8] = vstd::slice::slice_subrange(rest, 0, size);
                rest = vstd::slice::slice_subrange(rest, size, rest.len());
                proof {
                    done = done + chunk@;
                    assert(tail =~= chunk@ + rest@);
                    assert(before + tail =~= done + rest@);
                    lemma_chunk_filled::<O, F>(&self.inner, before, chunk@, chunk@, rest@, size as nat, all);
                }
                let r: Result<(), Error> = self.inner.write(chunk);
                proof {
                    assert(self.buffer@.take(0) =~= Seq::<u8>::empty());
                    if let Err(error) = r {
                        lemma_sent_more(
                            self.inner.origin(),
                            self.inner.output(),
                            body_bits(F::kind(), self.inner.entries(), full_chunks(done, size as nat)),
                            body_bits(F::kind(), self.inner.entries(), full_chunks(all, size as nat)),
                            error,
                        );
                    }
                }
                r?;
            } else {
                let ghost held = self.buffer@.take(self.filled as int);
                let room: usize = size - self.filled;
                let n: usize = if rest.len() < room {
                    rest.len()
                } else {
                    room
                };
                self.gather(rest, n);
                rest = vstd::slice::slice_subrange(rest, n, rest.len());
                let ghost part = tail.take(n as int);
                proof {
                    done = done + part;
                    assert(tail =~= part + rest@);
                    assert(before + tail =~= done + rest@);
                    lemma_chunks_go_on(before, part, size as nat);
                    lemma_one_chunk(held + part, size as nat);
                }
                if self.filled == size {
                    proof {
                        assert(self.buffer@.take(size as int) =~= self.buffer@);
                        lemma_chunk_filled::<O, F>(
                            &self.inner,
                            before,
                            part,
                            self.buffer@,
                            rest@,
                            size as nat,
                            all,
                        );
                    }
                    self.filled = 0;
                    let r: Result<(), Error> = self.inner.write(self.buffer);
                    proof {
                        assert(self.buffer@.take(0) =~= Seq::<u8>::empty());
                        if let Err(error) = r {
                            lemma_sent_more(
                                self.inner.origin(),
                                self.inner.output(),
                                body_bits(F::kind(), self.inner.entries(), full_chunks(done, size as nat)),
                                body_bits(F::kind(), self.inner.entries(), full_chunks(all, size as nat)),
                                error,
                            );
                        }
                    }
                    r?;
                } else {
                    proof {
                        assert(full_chunks(before, size as nat) + Seq::<Seq<u8>>::empty() =~= full_chunks(
                            before,
                            size as nat,
                        ));
                    }
                }
            }
        }
        proof {
            assert(done =~= all);
        }
        Ok(())
    }

    /// Copies the first `n` bytes of `piece` to the buffer.
    fn gather(&mut self, piece: &[u8], n: usize)
        requires
            old(self).filled + n <= old(self).buffer@.len(),
            n <= piece@.len(),
        ensures
            final(self).inner == old(self).inner,
            final(self).pieces == old(self).pieces,
            final(self).buffer@.len() == old(self).buffer@.len(),
            final(self).filled == old(self).filled + n,
            final(self).buffer@.take(final(self).filled as int) == old(self).buffer@.take(
                old(self).filled as int,
            ) + piece@.take(n as int),
    {
        let mut i: usize = 0;
        let ghost held = self.buffer@.take(self.filled as int);
        assert(held =~= held + piece@.take(0));
        while i < n
            invariant
                i <= n <= piece@.len(),
                self.inner == old(self).inner,
                self.pieces == old(self).pieces,
                self.filled == old(self).filled + i,
                self.buffer@.len() == old(self).buffer@.len(),
                old(self).filled + n <= self.buffer@.len(),
                held == old(self).buffer@.take(old(self).filled as int),
                self.buffer@.take(self.filled as int) == held + piece@.take(i as int),
            decreases n - i,
        {
            let ghost before = self.buffer@.take(self.filled as int);
            self.buffer[self.filled] = piece[i];
            self.filled += 1;
            i += 1;
            assert(self.buffer@.take(self.filled as int) =~= before.push(piece@[i - 1]));
            assert(before.push(piece@[i - 1]) =~= held + piece@.take(i as int));
        }
    }

    /// Ends the stream, and delivers all of it. Returns its length.
    ///
    /// The compressor is then ready for another stream, to the same output.
    pub fn finish(&mut self) -> (r: Result<u64, Error>)
        requires
            old(self).sound(),
        ensures
            final(self).sound(),
            final(self).origin() == final(self).output(),
            &*final(final(self).output().place()) == &*final(old(self).output().place()),
            final(self).entries() == old(self).entries(),
            final(self).size() == old(self).size(),
            final(self).pieces() == Seq::<Seq<u8>>::empty(),
            final(self).failed() is None,
            match old(self).failed() {
                Some(error) => {
                    &&& r == Err::<u64, Error>(error)
                    &&& final(self).output() == old(self).output()
                },
                None => {
                    let chunks = regrouped(old(self).pieces(), old(self).size());
                    let bits = stream_bits(F::kind(), old(self).entries(), chunks);
                    let out = final(self).output();
                    match r {
                        Ok(len) => {
                            &&& sent(old(self).origin(), out, bits, Ok(()))
                            &&& len == packed(bits).len()
                            &&& out.checked() == out.history().len()
                        },
                        Err(error) => sent(old(self).origin(), out, bits, Err(error)),
                    }
                },
            },
    {
        let ghost chunks = regrouped(self.pieces@, self.buffer@.len());
        if self.filled > 0 && self.inner.failure().is_none() {
            let rest: &[u8] = vstd::slice::slice_subrange(self.buffer, 0, self.filled);
            let r: Result<(), Error> = self.inner.write(rest);
            proof {
                lemma_stream_starts(F::kind(), self.inner.entries(), chunks);
                if let Err(error) = r {
                    lemma_sent_more(
                        self.inner.origin(),
                        self.inner.output(),
                        body_bits(F::kind(), self.inner.entries(), chunks),
                        stream_bits(F::kind(), self.inner.entries(), chunks),
                        error,
                    );
                }
            }
        }
        self.filled = 0;
        self.pieces = Ghost(Seq::empty());
        let r: Result<u64, Error> = self.inner.finish();
        proof {
            self.inner.lemma_output_sound();
            lemma_nothing_sent(self.inner.output());
            assert(self.buffer@.take(0) =~= Seq::<u8>::empty());
        }
        r
    }
}

/// Nothing makes no difference.
proof fn lemma_nothing_sent<O: Output>(out: O)
    requires
        out.sound(),
    ensures
        sent(out, out, Seq::empty(), Ok(())),
{
    assert(packed(Seq::<bool>::empty()) =~= Seq::<u8>::empty());
}

/// A chunk that was just filled is the next one.
proof fn lemma_chunk_filled<O: Output, F: Format>(
    inner: &Compressor<'_, O, F>,
    before: Seq<u8>,
    part: Seq<u8>,
    chunk: Seq<u8>,
    rest: Seq<u8>,
    size: nat,
    all: Seq<u8>,
)
    requires
        size > 0,
        chunk.len() == size,
        chunk == remainder(before, size) + part,
        before + part + rest == all,
        inner.chunks() == full_chunks(before, size),
    ensures
        full_chunks(before + part, size) == inner.chunks().push(chunk),
        remainder(before + part, size) == Seq::<u8>::empty(),
        body_bits(F::kind(), inner.entries(), full_chunks(before + part, size)).is_prefix_of(
            body_bits(F::kind(), inner.entries(), full_chunks(all, size)),
        ),
        0 < full_chunks(before + part, size).len() <= full_chunks(all, size).len(),
{
    lemma_chunks_go_on(before, part, size);
    lemma_one_chunk(chunk, size);
    assert(full_chunks(before, size) + seq![chunk] =~= inner.chunks().push(chunk));
    lemma_chunks_go_on(before + part, rest, size);
    lemma_body_grows(
        F::kind(),
        inner.entries(),
        full_chunks(before + part, size),
        full_chunks(remainder(before + part, size) + rest, size),
    );
}

} // verus!
