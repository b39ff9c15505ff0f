//! Output sinks.

use vstd::arithmetic::div_mod::lemma_mod_add_multiples_vanish;
use vstd::prelude::*;

use crate::checksum::Checksum;
use crate::error::Error;

verus! {

/// `history`, with `len` bytes appended that are each a copy of the byte
/// `dist` bytes before it. The last `dist` bytes get repeated when there are
/// fewer of them than `len`.
pub open spec fn copied(history: Seq<u8>, dist: int, len: nat) -> Seq<u8>
    decreases len,
{
    if len == 0 {
        history
    } else {
        let shorter = copied(history, dist, (len - 1) as nat);
        shorter.push(shorter[shorter.len() - dist])
    }
}

/// A copy of `len` bytes makes `len` bytes, after what was there.
pub proof fn lemma_copied(history: Seq<u8>, dist: int, len: nat)
    ensures
        copied(history, dist, len).len() == history.len() + len,
        history.is_prefix_of(copied(history, dist, len)),
    decreases len,
{
    if len > 0 {
        lemma_copied(history, dist, (len - 1) as nat);
    }
}

/// A shorter copy is the start of a longer one.
pub proof fn lemma_copied_prefix(history: Seq<u8>, dist: int, short: nat, len: nat)
    requires
        short <= len,
    ensures
        copied(history, dist, short).is_prefix_of(copied(history, dist, len)),
    decreases len,
{
    if short < len {
        lemma_copied_prefix(history, dist, short, (len - 1) as nat);
        lemma_copied(history, dist, short);
        lemma_copied(history, dist, (len - 1) as nat);
    }
}

/// What pieces hold, one after the other.
pub open spec fn joined(pieces: Seq<Seq<u8>>) -> Seq<u8>
    decreases pieces.len(),
{
    if pieces.len() == 0 {
        Seq::empty()
    } else {
        joined(pieces.drop_last()) + pieces.last()
    }
}

/// What an output can take.
pub struct Terms {
    /// The longest history that it takes.
    pub most: int,
    /// How far back a copy can reach.
    pub reach: int,
    /// Whether a copy that does not fit is made as far as it does.
    pub partial: bool,
}

/// Why a byte cannot be appended to `history`, if it cannot.
pub open spec fn put_fault(terms: Terms, history: Seq<u8>) -> Option<Error> {
    if history.len() >= terms.most {
        Some(Error::OutputFull)
    } else if terms.reach == 0 {
        Some(Error::WindowTooSmall)
    } else {
        None
    }
}

/// Why `len` bytes from `dist` bytes back cannot be appended to `history`, if
/// they cannot.
pub open spec fn copy_fault(terms: Terms, history: Seq<u8>, dist: int, len: int) -> Option<Error> {
    if dist > history.len() {
        Some(Error::InvalidDistance)
    } else if dist > terms.reach {
        Some(Error::WindowTooSmall)
    } else if history.len() + len > terms.most {
        Some(Error::OutputFull)
    } else {
        None
    }
}

/// The history that a copy makes, faulty or not.
pub open spec fn copy_result(terms: Terms, history: Seq<u8>, dist: int, len: int) -> Seq<u8> {
    match copy_fault(terms, history, dist, len) {
        None => copied(history, dist, len as nat),
        Some(Error::OutputFull) => if terms.partial {
            copied(history, dist, (terms.most - history.len()) as nat)
        } else {
            history
        },
        Some(_) => history,
    }
}

/// Why `bytes` cannot all be appended to `history`, if they cannot.
pub open spec fn pour_fault(terms: Terms, history: Seq<u8>, bytes: Seq<u8>) -> Option<Error> {
    if bytes.len() == 0 {
        None
    } else if put_fault(terms, history) is Some {
        put_fault(terms, history)
    } else if history.len() + bytes.len() > terms.most {
        Some(Error::OutputFull)
    } else {
        None
    }
}

/// The history that appending `bytes` makes, as far as they fit.
pub open spec fn poured(terms: Terms, history: Seq<u8>, bytes: Seq<u8>) -> Seq<u8> {
    if bytes.len() == 0 || put_fault(terms, history) is Some {
        history
    } else if history.len() + bytes.len() > terms.most {
        history + bytes.take(terms.most - history.len())
    } else {
        history + bytes
    }
}

/// What `r` tells of an attempt to get from the history `old_history` to
/// `goal`, with `fault` in the way or not: it is met, or the destination
/// failed on its own somewhere on the way.
pub open spec fn attempted(
    old_history: Seq<u8>,
    new_history: Seq<u8>,
    r: Result<(), Error>,
    goal: Seq<u8>,
    fault: Option<Error>,
    faults: Set<Error>,
) -> bool {
    ||| {
        &&& new_history == goal
        &&& r == match fault {
            None => Ok::<(), Error>(()),
            Some(error) => Err(error),
        }
    }
    ||| {
        &&& r is Err
        &&& faults.contains(r->Err_0)
        &&& old_history.is_prefix_of(new_history)
        &&& new_history.is_prefix_of(goal)
    }
}

/// Whether a copy is refused, with nothing appended at all.
pub open spec fn copy_refused(terms: Terms, history: Seq<u8>, dist: int, len: int) -> bool {
    match copy_fault(terms, history, dist, len) {
        None => false,
        Some(Error::OutputFull) => !terms.partial || history.len() >= terms.most,
        Some(_) => true,
    }
}

/// A copy of which something fits makes a longer history.
pub proof fn lemma_copy_longer(terms: Terms, history: Seq<u8>, dist: int, len: int)
    requires
        len > 0,
        !copy_refused(terms, history, dist, len),
    ensures
        copy_result(terms, history, dist, len).len() > history.len(),
{
    lemma_copied(history, dist, len as nat);
    if copy_fault(terms, history, dist, len) is Some {
        lemma_copied(history, dist, (terms.most - history.len()) as nat);
    }
}

/// What `r` tells of an attempt to append `len` bytes that nothing was said of.
pub open spec fn filled_in(
    terms: Terms,
    old_history: Seq<u8>,
    new_history: Seq<u8>,
    len: int,
    r: Result<(), Error>,
    faults: Set<Error>,
) -> bool {
    &&& old_history.is_prefix_of(new_history)
    &&& match r {
        Ok(_) => new_history.len() == old_history.len() + len <= terms.most,
        Err(error) => {
            ||| error == Error::OutputFull && old_history.len() + len > terms.most
            ||| error == Error::WindowTooSmall && terms.reach == 0 && len > 0
            ||| faults.contains(error)
        },
    }
}

/// Whether an outcome has nothing to do with the destination failing on its
/// own.
pub open spec fn own_outcome(r: Result<(), Error>, faults: Set<Error>) -> bool {
    match r {
        Ok(_) => true,
        Err(error) => !faults.contains(error),
    }
}

/// What it takes to hand a checksum the bytes of `history` from `from` to
/// `to`.
pub open spec fn passed_on<C: Checksum>(
    history: Seq<u8>,
    from: int,
    to: int,
    old_check: C,
    new_check: C,
) -> bool {
    &&& from <= to <= history.len()
    &&& new_check == old_check.absorb(history.subrange(from, to))
}

/// A sink for decompressed bytes that also serves as the deflate history
/// window.
///
/// Implemented by [`Buffer`] (buffer out), [`Stream`] (stream out through a
/// callback), [`Counter`] (discard and count) and `&mut O`.
pub trait Output: Sized {
    /// Whether the bytes reach `check`, i.e. whether data checksums can be
    /// verified with this output.
    const VERIFY: bool;

    /// What the output borrows to write to, if it does.
    type Place: ?Sized;

    /// What the output borrows.
    spec fn place(&self) -> &mut Self::Place;

    /// What `VERIFY` is.
    spec fn verifies() -> bool;

    /// Whether the output is in order.
    spec fn sound(&self) -> bool;

    /// Everything appended so far.
    spec fn history(&self) -> Seq<u8>;

    /// How many bytes of the history have reached a checksum.
    spec fn checked(&self) -> int;

    /// The lengths that the history had when it was to be delivered.
    spec fn flushes(&self) -> Set<int>;

    /// What the output can take.
    spec fn terms(&self) -> Terms;

    /// What the output delivers to, if it does.
    type Sink;

    /// What the output delivers to.
    spec fn sink(&self) -> Self::Sink;

    /// The errors with which the destination can fail on its own.
    spec fn faults(&self) -> Set<Error>;

    /// `VERIFY` is what it is said to be.
    proof fn verifies_so()
        ensures
            Self::VERIFY == Self::verifies(),
    ;

    /// What a sound output keeps to.
    proof fn bounds(&self)
        requires
            self.sound(),
        ensures
            0 <= self.checked() <= self.history().len() <= self.terms().most <= u64::MAX,
            0 <= self.terms().reach,
    ;

    /// Appends one byte.
    fn put<C: Checksum>(&mut self, byte: u8, check: &mut C) -> (r: Result<(), Error>)
        requires
            (*old(self)).sound(),
        ensures
            (*final(self)).sound(),
            &*final((*final(self)).place()) == &*final((*old(self)).place()),
            (*final(self)).terms() == (*old(self)).terms(),
            (*final(self)).faults() == (*old(self)).faults(),
            (*final(self)).sink() == (*old(self)).sink(),
            (*final(self)).flushes() == (*old(self)).flushes(),
            attempted(
                (*old(self)).history(),
                (*final(self)).history(),
                r,
                if put_fault((*old(self)).terms(), (*old(self)).history()) is None {
                    (*old(self)).history().push(byte)
                } else {
                    (*old(self)).history()
                },
                put_fault((*old(self)).terms(), (*old(self)).history()),
                (*old(self)).faults(),
            ),
            // A byte that does not fit makes no difference.
            put_fault((*old(self)).terms(), (*old(self)).history()) matches Some(error) ==> {
                &&& r == Err::<(), Error>(error)
                &&& (*final(self)).history() == (*old(self)).history()
                &&& (*final(self)).checked() == (*old(self)).checked()
                &&& *final(check) == *old(check)
            },
            own_outcome(r, (*old(self)).faults()) ==> (*old(self)).checked() <= (*final(self)).checked(),
            own_outcome(r, (*old(self)).faults()) ==> (Self::VERIFY ==> passed_on(
                (*final(self)).history(),
                (*old(self)).checked(),
                (*final(self)).checked(),
                *old(check),
                *final(check),
            )),
    ;

    /// Appends `len` bytes copied from `dist` bytes back in the output. The
    /// ranges overlap when `len > dist`, which repeats the last `dist` bytes.
    ///
    /// With a distance of zero, there is nothing to copy, and what gets
    /// appended is whatever the output holds there.
    fn copy<C: Checksum>(&mut self, dist: usize, len: usize, check: &mut C) -> (r: Result<(), Error>)
        requires
            (*old(self)).sound(),
        ensures
            (*final(self)).sound(),
            &*final((*final(self)).place()) == &*final((*old(self)).place()),
            (*final(self)).terms() == (*old(self)).terms(),
            (*final(self)).faults() == (*old(self)).faults(),
            (*final(self)).sink() == (*old(self)).sink(),
            (*final(self)).flushes() == (*old(self)).flushes(),
            dist >= 1 ==> attempted(
                (*old(self)).history(),
                (*final(self)).history(),
                r,
                copy_result((*old(self)).terms(), (*old(self)).history(), dist as int, len as int),
                copy_fault((*old(self)).terms(), (*old(self)).history(), dist as int, len as int),
                (*old(self)).faults(),
            ),
            dist == 0 ==> filled_in(
                (*old(self)).terms(),
                (*old(self)).history(),
                (*final(self)).history(),
                len as int,
                r,
                (*old(self)).faults(),
            ),
            // A copy of which nothing fits makes no difference.
            dist >= 1 && copy_refused(
                (*old(self)).terms(),
                (*old(self)).history(),
                dist as int,
                len as int,
            ) ==> {
                &&& r is Err
                &&& copy_fault((*old(self)).terms(), (*old(self)).history(), dist as int, len as int) == Some(
                    r->Err_0,
                )
                &&& (*final(self)).history() == (*old(self)).history()
                &&& (*final(self)).checked() == (*old(self)).checked()
                &&& *final(check) == *old(check)
            },
            own_outcome(r, (*old(self)).faults()) ==> (*old(self)).checked() <= (*final(self)).checked(),
            own_outcome(r, (*old(self)).faults()) ==> (Self::VERIFY ==> passed_on(
                (*final(self)).history(),
                (*old(self)).checked(),
                (*final(self)).checked(),
                *old(check),
                *final(check),
            )),
    ;

    /// Delivers everything produced so far to its destination and to `check`.
    fn flush<C: Checksum>(&mut self, check: &mut C) -> (r: Result<(), Error>)
        requires
            (*old(self)).sound(),
        ensures
            (*final(self)).sound(),
            &*final((*final(self)).place()) == &*final((*old(self)).place()),
            (*final(self)).terms() == (*old(self)).terms(),
            (*final(self)).faults() == (*old(self)).faults(),
            (*final(self)).sink() == (*old(self)).sink(),
            (*final(self)).flushes() == (*old(self)).flushes().insert((*old(self)).history().len() as int),
            (*final(self)).history() == (*old(self)).history(),
            // There is nothing to fail at when there is nothing to deliver.
            (*old(self)).checked() == (*old(self)).history().len() ==> r is Ok,
            r matches Err(error) ==> (*old(self)).faults().contains(error),
            r is Ok ==> {
                &&& (*old(self)).checked() <= (*final(self)).checked() == (*final(self)).history().len()
                &&& (Self::VERIFY ==> passed_on(
                (*final(self)).history(),
                (*old(self)).checked(),
                (*final(self)).checked(),
                *old(check),
                *final(check),
            ))
            },
    ;

    /// Total number of bytes appended so far.
    fn written(&self) -> (r: u64)
        requires
            self.sound(),
        ensures
            r == self.history().len(),
    ;
}

/// The output is still the same one.
pub open spec fn same_output<O: Output>(a: O, b: O) -> bool {
    &&& b.sound()
    &&& b.terms() == a.terms()
    &&& b.faults() == a.faults()
    &&& b.sink() == a.sink()
}

/// The destination cannot fail on its own.
pub open spec fn infallible<O: Output>(out: O) -> bool {
    forall|error: Error| !(#[trigger] out.faults().contains(error))
}

impl<O: Output> Output for &mut O {
    const VERIFY: bool = O::VERIFY;

    type Place = O;

    open spec fn place(&self) -> &mut O {
        *self
    }

    open spec fn verifies() -> bool {
        O::verifies()
    }

    proof fn verifies_so() {
        O::verifies_so();
    }

    open spec fn sound(&self) -> bool {
        (**self).sound()
    }

    open spec fn history(&self) -> Seq<u8> {
        (**self).history()
    }

    open spec fn checked(&self) -> int {
        (**self).checked()
    }

    open spec fn flushes(&self) -> Set<int> {
        (**self).flushes()
    }

    open spec fn terms(&self) -> Terms {
        (**self).terms()
    }

    type Sink = O::Sink;

    open spec fn sink(&self) -> O::Sink {
        (**self).sink()
    }

    open spec fn faults(&self) -> Set<Error> {
        (**self).faults()
    }

    proof fn bounds(&self) {
        (**self).bounds();
    }

    fn put<C: Checksum>(&mut self, byte: u8, check: &mut C) -> (r: Result<(), Error>) {
        (**self).put(byte, check)
    }

    fn copy<C: Checksum>(&mut self, dist: usize, len: usize, check: &mut C) -> (r: Result<(), Error>) {
        (**self).copy(dist, len, check)
    }

    fn flush<C: Checksum>(&mut self, check: &mut C) -> (r: Result<(), Error>) {
        (**self).flush(check)
    }

    fn written(&self) -> (r: u64) {
        (**self).written()
    }
}

/// Buffer out: decompresses into a slice, which doubles as the history
/// window, so no other memory is needed.
///
/// Decompression fails with [`Error::OutputFull`] if the slice is too small.
pub struct Buffer<'a> {
    buf: &'a mut [u8],
    pos: usize,
    checked: usize,
    flushes: Ghost<Set<int>>,
}

impl<'a> Buffer<'a> {
    /// Creates an output writing to the start of `buf`.
    pub fn new(buf: &'a mut [u8]) -> (r: Self)
        ensures
            r.sound(),
            r.history() == Seq::<u8>::empty(),
            r.checked() == 0,
            r.terms().most == old(buf)@.len(),
            r.terms().reach == old(buf)@.len(),
            !r.terms().partial,
            r.flushes() == Set::<int>::empty(),
            r.faults() == Set::<Error>::empty(),
            &*final(r.place()) == &*final(buf),
    {
        assert(buf.len() <= usize::MAX);
        Buffer { buf, pos: 0, checked: 0, flushes: Ghost(Set::empty()) }
    }

    /// What a buffer can take: copies reach all of it.
    pub proof fn lemma_terms(&self)
        ensures
            self.terms().reach == self.terms().most == (*self.place())@.len(),
            !self.terms().partial,
    {
    }

    /// What was output is at the start of the slice, and stays there once
    /// nothing more is to come.
    pub proof fn lemma_kept(&self)
        requires
            self.sound(),
        ensures
            self.history().is_prefix_of((*self.place())@),
            has_resolved(*self) ==> (*final(self.place()))@ == (*self.place())@,
    {
    }

    /// The decompressed data written so far.
    pub fn filled(&self) -> (r: &[u8])
        requires
            self.sound(),
        ensures
            r@ == self.history(),
    {
        vstd::slice::slice_subrange(self.buf, 0, self.pos)
    }
}

impl Output for Buffer<'_> {
    const VERIFY: bool = true;

    type Place = [u8];

    closed spec fn place(&self) -> &mut [u8] {
        self.buf
    }

    open spec fn verifies() -> bool {
        true
    }

    proof fn verifies_so() {
    }

    closed spec fn sound(&self) -> bool {
        self.checked <= self.pos <= self.buf@.len() <= usize::MAX
    }

    closed spec fn history(&self) -> Seq<u8> {
        self.buf@.subrange(0, self.pos as int)
    }

    closed spec fn checked(&self) -> int {
        self.checked as int
    }

    closed spec fn flushes(&self) -> Set<int> {
        self.flushes@
    }

    closed spec fn terms(&self) -> Terms {
        Terms { most: self.buf@.len() as int, reach: self.buf@.len() as int, partial: false }
    }

    type Sink = ();

    open spec fn sink(&self) -> () {
        ()
    }

    open spec fn faults(&self) -> Set<Error> {
        Set::empty()
    }

    proof fn bounds(&self) {
    }

    fn put<C: Checksum>(&mut self, byte: u8, check: &mut C) -> (r: Result<(), Error>) {
        proof {
            assert((*self).history().subrange((*self).checked(), (*self).checked()) =~= Seq::<u8>::empty());
            (*check).absorb_nothing();
        }
        if self.pos >= self.buf.len() {
            return Err(Error::OutputFull);
        }
        self.buf[self.pos] = byte;
        self.pos += 1;
        proof {
            assert((*self).history() =~= (*old(self)).history().push(byte));
            assert((*self).history().subrange((*self).checked(), (*self).checked()) =~= Seq::<u8>::empty());
            (*check).absorb_nothing();
        }
        Ok(())
    }

    fn copy<C: Checksum>(&mut self, dist: usize, len: usize, check: &mut C) -> (r: Result<(), Error>)
        ensures
            // What is there is not copied over.
            dist == 0 && r is Ok ==> (*final(self)).history() == (*(*old(self)).place())@.take(
                (*old(self)).history().len() + len,
            ),
    {
        proof {
            assert((*self).history().subrange((*self).checked(), (*self).checked()) =~= Seq::<u8>::empty());
            (*check).absorb_nothing();
        }
        if dist > self.pos {
            return Err(Error::InvalidDistance);
        }
        if len > self.buf.len() - self.pos {
            return Err(Error::OutputFull);
        }
        let end: usize = self.pos + len;
        let ghost start = self.pos;
        while self.pos < end
            invariant
                dist <= start <= self.pos <= end,
                end == start + len,
                end <= self.buf@.len() <= usize::MAX,
                self.buf@.len() == old(self).buf@.len(),
                self.checked == old(self).checked,
                self.flushes == old(self).flushes,
                &*final((*self).place()) == &*final((*old(self)).place()),
                dist >= 1 ==> (*self).history() == copied(
                    (*old(self)).history(),
                    dist as int,
                    (self.pos - start) as nat,
                ),
                dist == 0 ==> self.buf@ == old(self).buf@,
            decreases end - self.pos,
        {
            let ghost before = *self;
            let byte: u8 = self.buf[self.pos - dist];
            self.buf[self.pos] = byte;
            self.pos += 1;
            proof {
                if dist >= 1 {
                    let h = before.history();
                    assert((*self).history() =~= h.push(h[h.len() - dist]));
                } else {
                    assert(self.buf@ =~= before.buf@);
                }
            }
        }
        proof {
            lemma_copied((*old(self)).history(), dist as int, len as nat);
            assert(dist == 0 ==> (*old(self)).history() =~= (*self).history().subrange(0, start as int));
            assert((*self).history().subrange((*self).checked(), (*self).checked()) =~= Seq::<u8>::empty());
            (*check).absorb_nothing();
        }
        Ok(())
    }

    fn flush<C: Checksum>(&mut self, check: &mut C) -> (r: Result<(), Error>) {
        let data: &[u8] = vstd::slice::slice_subrange(self.buf, self.checked, self.pos);
        check.update(data);
        assert(data@ =~= (*self).history().subrange(self.checked as int, self.pos as int));
        self.checked = self.pos;
        self.flushes = Ghost(self.flushes@.insert(self.pos as int));
        Ok(())
    }

    fn written(&self) -> (r: u64) {
        self.pos as u64
    }
}

/// Stream out: decompresses through a caller-supplied history window, handing
/// the data to a callback each time the window fills up and once at the end.
///
/// The window must be at least as large as the one used by the compressor,
/// else decompression fails with [`Error::WindowTooSmall`]. 32768 bytes
/// handles every deflate stream; a larger window only means fewer, larger
/// callback invocations. The callback may fail with any [`Error`], typically
/// [`Error::Io`].
///
/// Nothing else bounds how much a stream decompresses to, and a few kilobytes
/// of deflate can expand to gigabytes, so a maximum length is required:
/// decompression fails with [`Error::OutputFull`] rather than produce more
/// than `max_len` bytes. Pass [`NO_LIMIT`](crate::NO_LIMIT) if the callback can
/// really take whatever comes.
pub struct Stream<'w, F> {
    window: &'w mut [u8],
    pos: usize,
    sent: usize,
    total: u64,
    max_len: u64,
    sink: F,
    history: Ghost<Seq<u8>>,
    pieces: Ghost<Seq<Seq<u8>>>,
    flushes: Ghost<Set<int>>,
}

/// Whether the callback can have taken `piece`, and said so.
pub open spec fn took<F: FnMut(&[u8]) -> Result<(), Error>>(sink: F, piece: Seq<u8>) -> bool {
    exists|data: &[u8]| data@ == piece && #[trigger] call_ensures(sink, (data,), Ok(()))
}

/// Whether the callback can fail at all.
pub open spec fn refuses<F: FnMut(&[u8]) -> Result<(), Error>>(sink: F) -> bool {
    exists|data: &[u8], error: Error| #[trigger] call_ensures(sink, (data,), Err(error))
}

/// The errors with which the callback can fail, and the one that a window with
/// data that it refused is left with.
pub open spec fn sink_faults<F: FnMut(&[u8]) -> Result<(), Error>>(sink: F) -> Set<Error> {
    Set::new(
        |error: Error|
            {
                ||| exists|data: &[u8]| #[trigger] call_ensures(sink, (data,), Err(error))
                ||| error == Error::WindowTooSmall && refuses(sink)
            },
    )
}

/// How many bytes the callback took, up to piece `i` and with it.
pub open spec fn end_of(pieces: Seq<Seq<u8>>, i: int) -> int {
    joined(pieces.take(i + 1)).len() as int
}

/// Whether each piece ends where a window of `size` bytes is full, or where it
/// was to be delivered.
pub open spec fn cut_right(pieces: Seq<Seq<u8>>, size: int, flushes: Set<int>) -> bool {
    forall|i: int|
        0 <= i < pieces.len() ==> (#[trigger] end_of(pieces, i)) % size == 0 || flushes.contains(
            end_of(pieces, i),
        )
}

proof fn lemma_cut_right(pieces: Seq<Seq<u8>>, piece: Seq<u8>, size: int, flushes: Set<int>)
    requires
        cut_right(pieces, size, flushes),
        ({
            let end = (joined(pieces).len() + piece.len()) as int;
            end % size == 0 || flushes.contains(end)
        }),
    ensures
        cut_right(pieces.push(piece), size, flushes),
{
    let more = pieces.push(piece);
    assert forall|i: int| 0 <= i < more.len() implies (#[trigger] end_of(more, i)) % size == 0 || flushes.contains(
        end_of(more, i),
    ) by {
        if i < pieces.len() {
            assert(more.take(i + 1) =~= pieces.take(i + 1));
            assert(end_of(pieces, i) == end_of(more, i));
        } else {
            assert(more.take(i + 1) =~= more);
            assert(more.drop_last() =~= pieces);
        }
    }
}

/// How far the deliveries of a [`Stream`] have got.
pub struct Delivery {
    /// What the callback took, a piece each time.
    pub pieces: Seq<Seq<u8>>,
    /// How many bytes that makes.
    pub checked: int,
    /// Where in the window the next byte goes.
    pub slot: int,
}

/// What a byte does, which `history` ends with: the callback is invoked when
/// this fills the window, for what it did not get yet, and then only.
pub open spec fn delivery_of_byte(d: Delivery, history: Seq<u8>, size: int) -> Delivery {
    if d.slot + 1 == size {
        Delivery { pieces: d.pieces.push(history.skip(d.checked)), checked: history.len() as int, slot: 0 }
    } else {
        Delivery { slot: d.slot + 1, ..d }
    }
}

/// What `n` bytes do, one after the other, which `history` ends with.
pub open spec fn delivery_of(d: Delivery, history: Seq<u8>, size: int, n: nat) -> Delivery
    decreases n,
{
    if n == 0 {
        d
    } else {
        delivery_of_byte(delivery_of(d, history.drop_last(), size, (n - 1) as nat), history, size)
    }
}

/// Where the byte that is `d` bytes back is in a window of `size` bytes, of
/// which the one at `pos` is next to be written.
spec fn slot(size: int, pos: int, d: int) -> int {
    if d <= pos {
        pos - d
    } else {
        size + pos - d
    }
}

impl<'w, F: FnMut(&[u8]) -> Result<(), Error>> Stream<'w, F> {
    /// What the callback took so far, a piece each time.
    pub closed spec fn pieces(&self) -> Seq<Seq<u8>> {
        self.pieces@
    }

    /// What a stream can take: copies reach as far as the window, and what
    /// there is room for of one is output.
    pub proof fn lemma_terms(&self)
        ensures
            self.terms().reach == (*self.place())@.len(),
            self.terms().partial,
    {
    }

    /// How far deliveries have got.
    pub open spec fn delivery(&self) -> Delivery {
        Delivery { pieces: self.pieces(), checked: (*self).checked(), slot: self.next_slot() }
    }

    /// What the callback took is what was output, in order, as far as it was
    /// delivered, no more than a window at a time, and it was not invoked for
    /// nothing, nor for a window that was not full unless it was to be
    /// delivered.
    pub proof fn lemma_delivered(&self)
        requires
            self.sound(),
        ensures
            joined(self.pieces()) == self.history().take(self.checked()),
            forall|i: int|
                0 <= i < self.pieces().len() ==> 0 < (#[trigger] self.pieces()[i]).len() <= self.terms().reach
                    && took((*self).sink(), self.pieces()[i]),
            cut_right(self.pieces(), self.terms().reach, self.flushes()),
    {
    }

    /// Where in the window the next byte goes.
    pub closed spec fn next_slot(&self) -> int {
        self.pos as int
    }

    /// How many bytes were delivered.
    spec fn delivered(&self) -> int {
        self.total - (self.pos - self.sent)
    }

    /// Whether the output is in order, but for a window that may just have
    /// been filled.
    spec fn filling(&self) -> bool {
        &&& self.sent <= self.pos <= self.window@.len() <= usize::MAX
        &&& self.pos - self.sent <= self.total
        &&& self.total == self.history@.len()
        &&& self.total <= self.max_len
        &&& self.holds_history()
        &&& forall|data: &[u8]| call_requires(self.sink, (data,))
        &&& joined(self.pieces@) == self.history@.take(self.delivered())
        &&& forall|i: int|
            0 <= i < self.pieces@.len() ==> 0 < (#[trigger] self.pieces@[i]).len() <= self.window@.len()
                && took(self.sink, self.pieces@[i])
        &&& cut_right(self.pieces@, self.window@.len() as int, self.flushes@)
        // The window was filled so many times.
        &&& self.window@.len() > 0 ==> (self.total - self.pos) % self.window@.len() as int == 0
    }

    /// The window holds the end of the history.
    spec fn holds_history(&self) -> bool {
        forall|d: int|
            1 <= d <= self.window@.len() && d <= self.history@.len() ==> #[trigger] self.window@[slot(
                self.window@.len() as int,
                self.pos as int,
                d,
            )] == self.history@[self.history@.len() - d]
    }

    /// Creates an output using `window` as its history window, accepting at
    /// most `max_len` bytes.
    pub fn new(window: &'w mut [u8], max_len: u64, sink: F) -> (r: Self)
        requires
            forall|data: &[u8]| call_requires(sink, (data,)),
        ensures
            r.sound(),
            r.history() == Seq::<u8>::empty(),
            r.checked() == 0,
            r.terms().most == max_len,
            r.terms().reach == old(window)@.len(),
            r.terms().partial,
            r.faults() == sink_faults(sink),
            &*final(r.place()) == &*final(window),
            r.sink() == sink,
            r.pieces() == Seq::<Seq<u8>>::empty(),
            r.next_slot() == 0,
            r.flushes() == Set::<int>::empty(),
            Self::verifies(),
    {
        assert(window.len() <= usize::MAX);
        assert(Seq::<u8>::empty().take(0) =~= Seq::<u8>::empty());
        Stream {
            window,
            pos: 0,
            sent: 0,
            total: 0,
            max_len,
            sink,
            history: Ghost(Seq::empty()),
            pieces: Ghost(Seq::empty()),
            flushes: Ghost(Set::empty()),
        }
    }

    /// Hands what is waiting to the checksum and to the callback.
    fn send<C: Checksum>(&mut self, check: &mut C) -> (r: Result<(), Error>)
        requires
            old(self).filling(),
            old(self).pos == old(self).window@.len() || old(self).flushes@.contains(old(self).total as int),
        ensures
            final(self).filling(),
            final(self).flushes == old(self).flushes,
            final(self).history@ == old(self).history@,
            final(self).window@ == old(self).window@,
            final(self).pos == old(self).pos,
            final(self).total == old(self).total,
            final(self).max_len == old(self).max_len,
            final(self).sink == old(self).sink,
            &*final((*final(self)).place()) == &*final((*old(self)).place()),
            old(self).sent == old(self).pos ==> r is Ok,
            final(self).pieces@ == (if r is Ok && old(self).sent < old(self).pos {
                old(self).pieces@.push(
                    old(self).history@.subrange((*old(self)).checked(), old(self).history@.len() as int),
                )
            } else {
                old(self).pieces@
            }),
            r is Ok ==> {
                &&& final(self).sent == final(self).pos
                &&& *final(check) == (*old(check)).absorb(
                    old(self).history@.subrange((*old(self)).checked(), old(self).history@.len() as int),
                )
            },
            r matches Err(error) ==> {
                &&& final(self).sent == old(self).sent
                &&& refuses(final(self).sink)
                &&& sink_faults(final(self).sink).contains(error)
            },
    {
        let data: &[u8] = vstd::slice::slice_subrange(self.window, self.sent, self.pos);
        let ghost waiting = self.history@.subrange((*self).checked(), self.history@.len() as int);
        assert(data@ =~= waiting) by {
            let n = self.history@.len() as int;
            assert forall|i: int| 0 <= i < data@.len() implies data@[i] == waiting[i] by {
                let d = self.pos - (self.sent + i);
                assert(self.window@[slot(self.window@.len() as int, self.pos as int, d)] == self.history@[n - d]);
            }
        }
        if data.len() > 0 {
            check.update(data);
            let r: Result<(), Error> = (self.sink)(data);
            assert(call_ensures(self.sink, (data,), r));
            r?;
            let ghost pieces = self.pieces@.push(data@);
            proof {
                assert(took(self.sink, data@));
                assert(pieces.drop_last() =~= self.pieces@);
                assert(self.history@.take((*self).checked()) + data@ =~= self.history@);
                assert(self.history@.take(self.history@.len() as int) =~= self.history@);
                let size = self.window@.len() as int;
                if self.pos == size {
                    lemma_mod_add_multiples_vanish(self.total - size, size);
                }
                lemma_cut_right(self.pieces@, data@, size, self.flushes@);
            }
            self.pieces = Ghost(pieces);
        } else {
            proof {
                assert(waiting =~= Seq::<u8>::empty());
                (*check).absorb_nothing();
            }
        }
        self.sent = self.pos;
        Ok(())
    }
}

impl<F: FnMut(&[u8]) -> Result<(), Error>> Output for Stream<'_, F> {
    const VERIFY: bool = true;

    type Place = [u8];

    closed spec fn place(&self) -> &mut [u8] {
        self.window
    }

    open spec fn verifies() -> bool {
        true
    }

    proof fn verifies_so() {
    }

    closed spec fn sound(&self) -> bool {
        &&& self.filling()
        // A window stays full when the callback refuses it.
        &&& self.pos == self.window@.len() && self.pos > 0 ==> refuses(self.sink)
    }

    closed spec fn history(&self) -> Seq<u8> {
        self.history@
    }

    closed spec fn checked(&self) -> int {
        self.delivered()
    }

    closed spec fn flushes(&self) -> Set<int> {
        self.flushes@
    }

    closed spec fn terms(&self) -> Terms {
        Terms { most: self.max_len as int, reach: self.window@.len() as int, partial: true }
    }

    type Sink = F;

    closed spec fn sink(&self) -> F {
        self.sink
    }

    open spec fn faults(&self) -> Set<Error> {
        sink_faults((*self).sink())
    }

    proof fn bounds(&self) {
    }

    fn put<C: Checksum>(&mut self, byte: u8, check: &mut C) -> (r: Result<(), Error>)
        ensures
            r is Ok ==> final(self).next_slot() == (if old(self).next_slot() + 1 == (*old(self)).terms().reach {
                0
            } else {
                old(self).next_slot() + 1
            }),
            r is Ok ==> old(self).next_slot() < (*old(self)).terms().reach,
            put_fault((*old(self)).terms(), (*old(self)).history()) is Some ==> *final(self) == *old(self),
            r is Ok ==> final(self).delivery() == delivery_of_byte(
                old(self).delivery(),
                (*final(self)).history(),
                (*old(self)).terms().reach,
            ),
            r is Err ==> final(self).pieces() == old(self).pieces(),
    {
        proof {
            assert((*self).history().subrange((*self).checked(), (*self).checked()) =~= Seq::<u8>::empty());
            (*check).absorb_nothing();
        }
        if self.total >= self.max_len {
            return Err(Error::OutputFull);
        }
        if self.pos >= self.window.len() {
            return Err(Error::WindowTooSmall);
        }
        let ghost size = self.window@.len() as int;
        self.window[self.pos] = byte;
        self.pos += 1;
        self.total += 1;
        self.history = Ghost(self.history@.push(byte));
        proof {
            assert forall|d: int| 1 <= d <= size && d <= self.history@.len() implies
                #[trigger] self.window@[slot(size, self.pos as int, d)] == self.history@[self.history@.len() - d]
            by {
                if d > 1 {
                    assert(old(self).window@[slot(size, old(self).pos as int, d - 1)]
                        == old(self).history@[old(self).history@.len() - (d - 1)]);
                }
            }
            assert(self.holds_history());
            assert(self.history@.take((*self).checked()) =~= old(self).history@.take((*old(self)).checked()));
            assert((*old(self)).history().is_prefix_of((*self).history()));
            assert((*self).history().is_prefix_of((*self).history()));
            assert((*self).checked() == (*old(self)).checked());
        }
        if self.pos == self.window.len() {
            self.send(check)?;
            let ghost full = *self;
            proof {
                lemma_mod_add_multiples_vanish(self.total - size, size);
            }
            assert(full.history@.subrange((*old(self)).checked(), full.history@.len() as int)
                =~= full.history@.skip((*old(self)).checked()));
            self.pos = 0;
            self.sent = 0;
            proof {
                assert forall|d: int| 1 <= d <= size && d <= self.history@.len() implies
                    #[trigger] self.window@[slot(size, 0, d)] == self.history@[self.history@.len() - d]
                by {
                    assert(full.window@[slot(size, size, d)] == full.history@[full.history@.len() - d]);
                }
            }
        } else {
            proof {
                assert((*self).history().subrange((*self).checked(), (*self).checked()) =~= Seq::<u8>::empty());
                (*check).absorb_nothing();
            }
        }
        Ok(())
    }

    fn copy<C: Checksum>(&mut self, dist: usize, len: usize, check: &mut C) -> (r: Result<(), Error>)
        ensures
            // The callback is invoked as each of the bytes would have it.
            own_outcome(r, (*old(self)).faults()) ==> final(self).delivery() == delivery_of(
                old(self).delivery(),
                (*final(self)).history(),
                (*old(self)).terms().reach,
                ((*final(self)).history().len() - (*old(self)).history().len()) as nat,
            ),
            // Up to the one for which it fails, if it does.
            r is Err ==> exists|n: nat|
                n <= (*final(self)).history().len() - (*old(self)).history().len() && final(self).pieces()
                    == (#[trigger] delivery_of(
                    old(self).delivery(),
                    (*final(self)).history().take((*old(self)).history().len() as int + n),
                    (*old(self)).terms().reach,
                    n,
                )).pieces,
    {
        let size: usize = self.window.len();
        proof {
            assert((*self).history().subrange((*self).checked(), (*self).checked()) =~= Seq::<u8>::empty());
            (*check).absorb_nothing();
            assert(delivery_of(
                self.delivery(),
                (*self).history().take((*self).history().len() as int + 0nat),
                (*self).terms().reach,
                0,
            ).pieces == self.pieces());
        }
        if dist as u64 > self.total {
            return Err(Error::InvalidDistance);
        }
        if dist > size {
            return Err(Error::WindowTooSmall);
        }
        let mut src: usize = if dist <= self.pos {
            self.pos - dist
        } else {
            size - (dist - self.pos)
        };
        let mut done: usize = 0;
        let ghost goal = copy_result((*old(self)).terms(), (*old(self)).history(), dist as int, len as int);
        let ghost first = *old(check);
        proof {
            (*self).bounds();
            assert((*self).history().subrange((*self).checked(), (*self).checked()) =~= Seq::<u8>::empty());
            first.absorb_nothing();
        }
        while done < len
            invariant
                (*self).sound(),
                (*self).terms() == (*old(self)).terms(),
                (*self).faults() == (*old(self)).faults(),
                (*self).sink() == (*old(self)).sink(),
                &*final((*self).place()) == &*final((*old(self)).place()),
                size == self.window@.len(),
                dist <= size,
                0 <= (*old(self)).checked(),
                dist <= (*old(self)).history().len() <= (*old(self)).terms().most,
                done <= len,
                (*old(self)).history().len() + done <= (*old(self)).terms().most,
                self.pos == size ==> src == size - dist && done == 0,
                self.pos < size ==> src == slot(size as int, self.pos as int, dist as int),
                dist >= 1 ==> (*self).history() == copied((*old(self)).history(), dist as int, done as nat),
                (*self).history().len() == (*old(self)).history().len() + done,
                (*old(self)).history().is_prefix_of((*self).history()),
                first == *old(check),
                (*self).flushes() == (*old(self)).flushes(),
                self.delivery() == delivery_of(
                    old(self).delivery(),
                    (*self).history(),
                    (*old(self)).terms().reach,
                    done as nat,
                ),
                done == 0 ==> *self == *old(self) && *check == first,
                goal == copy_result((*old(self)).terms(), (*old(self)).history(), dist as int, len as int),
                (*old(self)).checked() <= (*self).checked() <= (*self).history().len(),
                *check == first.absorb(
                    (*self).history().subrange((*old(self)).checked(), (*self).checked()),
                ),
            decreases len - done,
        {
            let ghost before = *self;
            let ghost check_before = *check;
            proof {
                lemma_copied((*old(self)).history(), dist as int, done as nat);
                lemma_copied_prefix((*old(self)).history(), dist as int, done as nat, len as nat);
                assert(dist >= 1 ==> self.window@[slot(size as int, self.pos as int, dist as int)]
                    == self.history@[self.history@.len() - dist]);
            }
            if src >= size {
                return Err(Error::WindowTooSmall);
            }
            let byte: u8 = self.window[src];
            let r: Result<(), Error> = self.put(byte, check);
            proof {
                let base = (*old(self)).history().len() as int;
                assert((*self).history().take(base + done) =~= before.history()) by {
                    assert(before.history() =~= (*self).history().subrange(0, before.history().len() as int));
                }
                if r is Ok {
                    assert((*self).history().drop_last() =~= before.history());
                    assert((*self).history().take(base + done + 1) =~= (*self).history());
                }
                assert(r is Err ==> self.pieces() == delivery_of(
                    old(self).delivery(),
                    (*self).history().take(base + done),
                    (*old(self)).terms().reach,
                    done as nat,
                ).pieces);
                let h = (*old(self)).history();
                assert(h.is_prefix_of((*self).history())) by {
                    let n = h.len() as int;
                    assert(h =~= (*self).history().subrange(0, n)) by {
                        assert(before.history().subrange(0, n) =~= h);
                    }
                }
                assert(dist >= 1 ==> before.history().push(byte) == copied(h, dist as int, (done + 1) as nat));
                let n = ((*old(self)).terms().most - h.len()) as nat;
                if h.len() + len > (*old(self)).terms().most {
                    if done < n {
                        lemma_copied_prefix(h, dist as int, (done + 1) as nat, n);
                    }
                } else {
                    lemma_copied_prefix(h, dist as int, (done + 1) as nat, len as nat);
                }
            }
            proof {
                if own_outcome(r, (*old(self)).faults()) {
                    let from = (*old(self)).checked();
                    let (a, b) = (before.checked(), (*self).checked());
                    let h = (*self).history();
                    first.absorb_joined(before.history().subrange(from, a), h.subrange(a, b));
                    assert(h.subrange(from, a) =~= before.history().subrange(from, a)) by {
                        assert(h.subrange(0, before.history().len() as int) =~= before.history());
                    }
                    assert(h.subrange(from, b) =~= h.subrange(from, a) + h.subrange(a, b));
                }
            }
            if r.is_err() {
                return r;
            }
            done += 1;
            src += 1;
            if src == size {
                src = 0;
            }
        }
        Ok(())
    }

    fn flush<C: Checksum>(&mut self, check: &mut C) -> (r: Result<(), Error>)
        ensures
            final(self).next_slot() == old(self).next_slot(),
            // The callback is invoked for what it did not get yet, if anything.
            final(self).pieces() == (if r is Ok && (*old(self)).checked() < (*old(self)).history().len() {
                old(self).pieces().push((*old(self)).history().skip((*old(self)).checked()))
            } else {
                old(self).pieces()
            }),
    {
        assert((*self).history().subrange((*self).checked(), (*self).history().len() as int)
            =~= (*self).history().skip((*self).checked()));
        self.flushes = Ghost(self.flushes@.insert(self.total as int));
        self.send(check)
    }

    fn written(&self) -> (r: u64) {
        self.total
    }
}

/// Discards the data and only counts it. Needs no memory at all, since a
/// back-reference has a known length whatever it points at.
///
/// Data checksums cannot be verified this way; everything else still is.
///
/// Counting is fast, but a few kilobytes of deflate can still stand for
/// gigabytes of data, so a maximum length is required: decoding fails with
/// [`Error::OutputFull`] as soon as the count exceeds `max_len`. Pass
/// [`NO_LIMIT`](crate::NO_LIMIT) to count no matter what.
pub struct Counter {
    count: u64,
    max_len: u64,
    history: Ghost<Seq<u8>>,
    flushes: Ghost<Set<int>>,
}

impl Counter {
    /// Creates a counter starting at zero and giving up past `max_len`.
    pub fn new(max_len: u64) -> (r: Self)
        ensures
            r.sound(),
            r.history() == Seq::<u8>::empty(),
            r.terms().most == max_len,
            r.terms().reach == max_len,
            !r.terms().partial,
            r.flushes() == Set::<int>::empty(),
            r.faults() == Set::<Error>::empty(),
    {
        Counter { count: 0, max_len, history: Ghost(Seq::empty()), flushes: Ghost(Set::empty()) }
    }
}

impl Output for Counter {
    const VERIFY: bool = false;

    type Place = ();

    open spec fn place(&self) -> &mut () {
        arbitrary()
    }

    open spec fn verifies() -> bool {
        false
    }

    proof fn verifies_so() {
    }

    closed spec fn sound(&self) -> bool {
        self.count == self.history@.len() && self.count <= self.max_len
    }

    closed spec fn history(&self) -> Seq<u8> {
        self.history@
    }

    closed spec fn checked(&self) -> int {
        self.history@.len() as int
    }

    closed spec fn flushes(&self) -> Set<int> {
        self.flushes@
    }

    closed spec fn terms(&self) -> Terms {
        Terms { most: self.max_len as int, reach: self.max_len as int, partial: false }
    }

    type Sink = ();

    open spec fn sink(&self) -> () {
        ()
    }

    open spec fn faults(&self) -> Set<Error> {
        Set::empty()
    }

    proof fn bounds(&self) {
    }

    fn put<C: Checksum>(&mut self, byte: u8, check: &mut C) -> (r: Result<(), Error>) {
        if self.count >= self.max_len {
            return Err(Error::OutputFull);
        }
        self.count += 1;
        self.history = Ghost(self.history@.push(byte));
        Ok(())
    }

    fn copy<C: Checksum>(&mut self, dist: usize, len: usize, check: &mut C) -> (r: Result<(), Error>)
        ensures
            r == if dist > (*old(self)).history().len() {
                Err::<(), Error>(Error::InvalidDistance)
            } else if len > (*old(self)).terms().most - (*old(self)).history().len() {
                Err(Error::OutputFull)
            } else {
                Ok(())
            },
            r is Ok ==> (*final(self)).history().len() == (*old(self)).history().len() + len,
            r is Err ==> (*final(self)).history() == (*old(self)).history(),
            *final(check) == *old(check),
    {
        if dist as u64 > self.count {
            return Err(Error::InvalidDistance);
        }
        // `count` never exceeds `max_len`, so this cannot overflow.
        if len as u64 > self.max_len - self.count {
            return Err(Error::OutputFull);
        }
        self.count += len as u64;
        self.history = Ghost(copied(self.history@, dist as int, len as nat));
        proof {
            lemma_copied(old(self).history@, dist as int, len as nat);
        }
        Ok(())
    }

    fn flush<C: Checksum>(&mut self, check: &mut C) -> (r: Result<(), Error>) {
        self.flushes = Ghost(self.flushes@.insert(self.count as int));
        Ok(())
    }

    fn written(&self) -> (r: u64) {
        self.count
    }
}

} // verus!
