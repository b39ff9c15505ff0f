//! What holds of the library as a whole.

use vstd::arithmetic::power2::{lemma2_to64, lemma_pow2_pos, lemma_pow2_strictly_increases, pow2};
use vstd::bits::lemma_u32_shl_is_mul;
use vstd::prelude::*;

use crate::atop::{
    lemma_advance_alike, lemma_advance_atop, lemma_advance_full, lemma_advance_window,
    lemma_on_top, lemma_on_top_start,
};
use crate::bits::{
    bit_len, lemma_number_bound, lemma_number_byte, lemma_number_prefix, lemma_number_split,
    number,
};
use crate::buffered::{full_chunks, regrouped, remainder};
use crate::container::{
    counting, decoded, decoded_from, measured, measured_from, produced, shortest,
};
use crate::decoding::{
    advance, bits_left, halted, in_place, lemma_at_block, lemma_at_checksum, lemma_at_code_lengths,
    lemma_at_distance, lemma_at_end, lemma_at_fields, lemma_at_length, lemma_at_lengths,
    lemma_at_member, lemma_at_next, lemma_at_size, lemma_at_skip, lemma_at_start, lemma_at_stored,
    lemma_at_stored_len, lemma_step_shrinks, marked, orderly, origin, rank, step, Kind, Progress,
    Setup, State,
};
use crate::deflate::{compressed, sent};
use crate::encoding::{
    body_bits, byte_bits, chunks_bits, clear_table, end_bits, ended_bits, entered, final_bits,
    header_of, length_symbol, number_bits, packed, padding, reach, stream_bits, table_size, token,
    token_bits, tokens_bits, trailer_of, word_bits, Token,
};
use crate::error::Error;
use crate::format::Container;
use crate::input::{modest, runs_dry, Input, Reader};
use crate::last_word;
use crate::output::{cut_right, end_of, infallible, joined, Buffer, Output, Stream, Terms};
use crate::push::Decompressor;
use crate::reader::Inflate;
use crate::roundtrip::{lemma_dist_symbol, lemma_length_symbol, lemma_token, lemma_word_bits_len};
use crate::shift::{lemma_advance_shift, shifted};
use crate::single::{
    lemma_beyond, lemma_far, lemma_next_forward, lemma_next_in_place, lemma_next_local,
    lemma_next_stays, lemma_tidy, tidy, up_to_next,
};
use crate::spelling::{lemma_number_spelt, lemma_packed};
use crate::steps::{
    lemma_advance_forward, lemma_advance_joined, lemma_advance_orderly, lemma_advance_within,
    lemma_halted_stays,
};
use crate::trailing::lemma_all_out;

pub use crate::atop::{as_roomy, inherent};
pub use crate::roundtrip::{roomy, stream_decodes, suits};

verus! {

/// What an input that ends where `end` was reached comes to.
pub open spec fn verdict(end: Progress) -> Result<(), Error> {
    match end.state {
        State::Done => Ok(()),
        State::Next => Ok(()),
        State::Failed(error) => Err(error),
        _ => Err(Error::UnexpectedEof),
    }
}

/// How the input is cut makes no difference: what some data gets decoding is
/// as good as that data, whatever comes next.
pub proof fn cut_makes_no_difference(setup: Setup, data: Seq<u8>, more: Seq<u8>, out: Seq<u8>)
    ensures
        advance(setup, data + more, advance(setup, data, origin(out))) == advance(
            setup,
            data + more,
            origin(out),
        ),
{
    lemma_advance_joined(setup, data, more, origin(out));
}

/// A stream that has ended, or failed, has, whatever follows it.
pub proof fn end_is_final(setup: Setup, data: Seq<u8>, more: Seq<u8>, out: Seq<u8>)
    requires
        halted(advance(setup, data, origin(out))),
    ensures
        advance(setup, data + more, origin(out)) == advance(setup, data, origin(out)),
{
    lemma_advance_joined(setup, data, more, origin(out));
    lemma_halted_stays(setup, data + more, advance(setup, data, origin(out)));
}

/// Whatever the input, no more comes out than the output takes, and what was
/// there stays there.
pub proof fn output_is_bounded(setup: Setup, data: Seq<u8>, out: Seq<u8>)
    requires
        out.len() <= setup.terms.most,
    ensures
        out.is_prefix_of(advance(setup, data, origin(out)).out),
        advance(setup, data, origin(out)).out.len() <= setup.terms.most,
{
    lemma_advance_forward(setup, data, origin(out));
    assert(orderly(setup, origin(out))) by {
        reveal(in_place);
        reveal(crate::decoding::fits);
    }
    lemma_advance_orderly(setup, data, origin(out));
}

/// Nothing made up past the end of the input reaches the output: what comes
/// out of the start of some data is the start of what comes out of it all.
pub proof fn output_follows_input(setup: Setup, data: Seq<u8>, more: Seq<u8>, out: Seq<u8>)
    ensures
        advance(setup, data, origin(out)).out.is_prefix_of(advance(setup, data + more, origin(out)).out),
{
    lemma_advance_joined(setup, data, more, origin(out));
    lemma_advance_forward(setup, data, origin(out));
    lemma_advance_forward(setup, data + more, advance(setup, data, origin(out)));
}

/// A stream is not over before its end.
proof fn lemma_cut(setup: Setup, data: Seq<u8>, n: int, out: Seq<u8>)
    requires
        0 <= n < data.len(),
        advance(setup, data, origin(out)).state !is Failed,
        advance(setup, data, origin(out)).pos == bit_len(data),
    ensures
        !halted(advance(setup, data.take(n), origin(out))),
{
    let some = data.take(n);
    let end = advance(setup, some, origin(out));
    assert(some + data.skip(n) =~= data);
    if halted(end) {
        end_is_final(setup, some, data.skip(n), out);
        lemma_advance_within(setup, some, origin(out));
    }
}

/// Decompressing a slice, to an output that does not fail on its own, comes to
/// what the slice decodes to: this is the outcome, this is the output, and
/// what follows the stream is left, but for the one byte it takes to tell that
/// no other gzip member follows. So is what follows the first bit that makes it
/// one that cannot be decoded, up to the byte.
pub proof fn slice_decoded<O: Output>(kind: Kind, ia: &[u8], ib: &[u8], oa: O, ob: O, r: Result<(), Error>)
    requires
        decoded(kind, ia, ib, oa, ob, r),
        infallible(oa),
    ensures
        ({
            let setup = Setup { kind, verify: O::verifies(), terms: oa.terms() };
            let end = advance(setup, ia@, origin(oa.history()));
            &&& r == verdict(end)
            &&& ob.history() == end.out
            &&& end.state is Done ==> bit_len(ia@) == end.pos + bit_len(ib@)
            &&& end.state is Failed ==> end.pos + bit_len(ib@) <= bit_len(ia@) < end.pos + bit_len(ib@) + 8
            &&& !halted(end) ==> ib@.len() == 0
            &&& ib@.is_suffix_of(ia@)
        }),
{
    let setup = Setup { kind, verify: O::verifies(), terms: oa.terms() };
    let p = origin(oa.history());
    let taken = choose|taken: Seq<u8>| #[trigger] decoded_from(kind, taken, ia, ib, oa, ob, r);
    let end = advance(setup, taken, p);
    if let Ok(nothing) = r {
        assert(nothing == ());
    }
    assert(ia@.len() == ia.len() && ib@.len() == ib.len());
    if halted(end) {
        end_is_final(setup, taken, ib@, oa.history());
    } else {
        let error = choose|error: Error| #[trigger] runs_dry(ia, taken, error, ib) && r == if end.state is Next && error
            == Error::UnexpectedEof {
            Ok::<(), Error>(())
        } else {
            Err(error)
        };
        assert(taken =~= ia@);
    }
    assert(ia@ =~= taken + ib@);
    assert(ib@ =~= ia@.skip(ia@.len() - ib@.len()));
}

/// An input that is lent is decoded from as if it were not.
pub proof fn input_lent<I: Input, O: Output>(
    kind: Kind,
    ia: &mut I,
    ib: &mut I,
    oa: O,
    ob: O,
    r: Result<(), Error>,
)
    requires
        decoded(kind, ia, ib, oa, ob, r),
    ensures
        decoded(kind, *old(ia), *old(ib), oa, ob, r),
{
    let taken = choose|taken: Seq<u8>| #[trigger] decoded_from(kind, taken, ia, ib, oa, ob, r);
    assert forall|error: Error| #[trigger] runs_dry(ia, taken, error, ib) implies runs_dry(
        *ia,
        taken,
        error,
        *ib,
    ) by {
        lemma_runs_dry_lent(ia, taken, error, ib);
    }
    assert(decoded_from(kind, taken, *ia, *ib, oa, ob, r));
}

/// An output that is lent is decoded to as if it were not.
pub proof fn output_lent<I: Input, O: Output>(
    kind: Kind,
    ia: I,
    ib: I,
    oa: &mut O,
    ob: &mut O,
    r: Result<(), Error>,
)
    requires
        decoded(kind, ia, ib, oa, ob, r),
    ensures
        decoded(kind, ia, ib, *old(oa), *old(ob), r),
{
    let taken = choose|taken: Seq<u8>| #[trigger] decoded_from(kind, taken, ia, ib, oa, ob, r);
    assert(decoded_from(kind, taken, ia, ib, *oa, *ob, r));
}

/// A length that is found from an input that is lent is found as if it were
/// not.
pub proof fn measuring_lent<I: Input>(
    kind: Kind,
    max_len: u64,
    ia: &mut I,
    ib: &mut I,
    r: Result<u64, Error>,
)
    requires
        measured(kind, max_len, ia, ib, r),
    ensures
        measured(kind, max_len, *old(ia), *old(ib), r),
{
    let taken = choose|taken: Seq<u8>| #[trigger] measured_from(kind, max_len, taken, ia, ib, r);
    assert forall|error: Error| #[trigger] runs_dry(ia, taken, error, ib) implies runs_dry(
        *ia,
        taken,
        error,
        *ib,
    ) by {
        lemma_runs_dry_lent(ia, taken, error, ib);
    }
    assert(measured_from(kind, max_len, taken, *ia, *ib, r));
}

proof fn lemma_runs_dry_lent<I: Input>(ia: &mut I, taken: Seq<u8>, error: Error, ib: &mut I)
    requires
        runs_dry(ia, taken, error, ib),
    ensures
        runs_dry(*old(ia), taken, error, *old(ib)),
{
    if exists|i: &mut I| #![trigger i.fails(error, ib)] ia.yields(taken, i) && i.fails(error, ib) {
        let i = choose|i: &mut I| #![trigger i.fails(error, ib)] ia.yields(taken, i) && i.fails(error, ib);
        assert((*i).fails(error, *ib));
    }
}

/// A [`Reader`] keeps what was fetched past the end of the stream: whatever its
/// callback brought was taken, or is still there, and is what
/// [`buffered`](Reader::buffered) gives as long as the callback does not claim
/// more than there is room for.
pub proof fn reader_keeps_the_rest<'b, F: FnMut(&mut [u8]) -> Result<usize, Error>, O: Output>(
    kind: Kind,
    ia: Reader<'b, F>,
    ib: Reader<'b, F>,
    oa: O,
    ob: O,
    r: Result<(), Error>,
)
    requires
        decoded(kind, ia, ib, oa, ob, r),
    ensures
        exists|taken: Seq<u8>| #[trigger]
            decoded_from(kind, taken, ia, ib, oa, ob, r) && ib.fetched() == ia.handed() + taken + ib.pending()
                && (modest(ia.source()) && ia.fitting() ==> ib.fetched() == ia.handed() + taken + ib.ahead()),
{
    let taken = choose|taken: Seq<u8>| #[trigger] decoded_from(kind, taken, ia, ib, oa, ob, r);
    ib.lemma_fetched();
    assert forall|error: Error| #[trigger] runs_dry(ia, taken, error, ib) implies ib.handed() == ia.handed()
        + taken && (modest(ia.source()) && ia.fitting() ==> ib.fitting()) by {}
}

/// What was compressed, whatever the container, the table and the chunks,
/// decompresses to what it was, all of it and nothing else, as that container
/// or as one to be detected.
pub proof fn chunks_come_back<O: Output, P: Output>(
    kind: Kind,
    entries: nat,
    chunks: Seq<Seq<u8>>,
    oa: O,
    ob: O,
    expected: Kind,
    ia: &[u8],
    ib: &[u8],
    pa: P,
    pb: P,
    r: Result<u64, Error>,
)
    requires
        sent(oa, ob, stream_bits(kind, entries, chunks), Ok(())),
        suits(expected, kind),
        ia@ == ob.history().skip(oa.history().len() as int),
        roomy(pa.terms(), (pa.history().len() + joined(chunks).len()) as int),
        infallible(pa),
        pb.sound(),
        produced(expected, ia, ib, pa, pb, r),
    ensures
        r == Ok::<u64, Error>(joined(chunks).len() as u64),
        pb.history() == pa.history() + joined(chunks),
        ib@.len() == 0,
{
    let bits = stream_bits(kind, entries, chunks);
    let setup = Setup { kind: expected, verify: P::verifies(), terms: pa.terms() };
    assert(ia@ =~= packed(bits));
    stream_decodes(setup, kind, entries, chunks, pa.history());
    let done = match r {
        Ok(_) => Ok(()),
        Err(error) => Err(error),
    };
    slice_decoded(expected, ia, ib, pa, pb, done);
    pb.bounds();
}

/// The same of data that was compressed in one go.
pub proof fn data_comes_back<O: Output, P: Output>(
    kind: Kind,
    entries: nat,
    data: Seq<u8>,
    oa: O,
    ob: O,
    len: u64,
    expected: Kind,
    ia: &[u8],
    ib: &[u8],
    pa: P,
    pb: P,
    r: Result<u64, Error>,
)
    requires
        compressed(kind, entries, data, oa, ob, Ok(len)),
        suits(expected, kind),
        ia@ == ob.history().skip(oa.history().len() as int),
        roomy(pa.terms(), (pa.history().len() + data.len()) as int),
        infallible(pa),
        pb.sound(),
        produced(expected, ia, ib, pa, pb, r),
    ensures
        len == ia@.len(),
        r == Ok::<u64, Error>(data.len() as u64),
        pb.history() == pa.history() + data,
        ib@.len() == 0,
{
    lemma_joined_one(data);
    assert(ia@ =~= packed(stream_bits(kind, entries, seq![data])));
    chunks_come_back(kind, entries, seq![data], oa, ob, expected, ia, ib, pa, pb, r);
}

/// One piece is all there is to it.
proof fn lemma_joined_one(data: Seq<u8>)
    ensures
        joined(seq![data]) == data,
{
    assert(seq![data].drop_last() =~= Seq::<Seq<u8>>::empty());
    assert(joined(Seq::<Seq<u8>>::empty()) =~= Seq::<u8>::empty());
    assert(Seq::<u8>::empty() + data =~= data);
}

/// The same of slices: data that was compressed to the start of one, then
/// decompressed from there to the start of another, is there.
pub proof fn slices_come_back<'a, 'b>(
    kind: Kind,
    entries: nat,
    data: Seq<u8>,
    oa: Buffer<'a>,
    ob: Buffer<'a>,
    len: u64,
    expected: Kind,
    ia: &[u8],
    ib: &[u8],
    pa: Buffer<'b>,
    pb: Buffer<'b>,
    r: Result<u64, Error>,
)
    requires
        oa.history() == Seq::<u8>::empty(),
        compressed(kind, entries, data, oa, ob, Ok(len)),
        has_resolved(ob),
        &*final(ob.place()) == &*final(oa.place()),
        suits(expected, kind),
        ia@ == (*final(oa.place()))@.take(len as int),
        pa.history() == Seq::<u8>::empty(),
        roomy(pa.terms(), data.len() as int),
        produced(expected, ia, ib, pa, pb, r),
        has_resolved(pb),
        &*final(pb.place()) == &*final(pa.place()),
    ensures
        r == Ok::<u64, Error>(data.len() as u64),
        (*final(pa.place()))@.take(data.len() as int) == data,
{
    ob.lemma_kept();
    ob.bounds();
    assert(ia@ =~= ob.history().skip(0));
    data_comes_back(kind, entries, data, oa, ob, len, expected, ia, ib, pa, pb, r);
    pb.lemma_kept();
    assert((*final(pa.place()))@.take(data.len() as int) =~= data);
}

/// The same of what was compressed in chunks and is then pushed, in whatever
/// pieces: once it has all been consumed, the stream may end, and all of the
/// data is there.
pub proof fn chunks_come_back_pushed<O: Output, F: Container>(
    kind: Kind,
    entries: nat,
    chunks: Seq<Seq<u8>>,
    decompressor: &Decompressor<O, F>,
)
    requires
        suits(F::kind(), kind),
        decompressor.taken() == packed(stream_bits(kind, entries, chunks)),
        roomy(
            decompressor.output().terms(),
            (decompressor.begun().len() + joined(chunks).len()) as int,
        ),
    ensures
        verdict(decompressor.end()) is Ok,
        decompressor.end().out == decompressor.begun() + joined(chunks),
{
    stream_decodes(decompressor.setup(), kind, entries, chunks, decompressor.begun());
}

/// What the push decoder makes of some data, in whatever pieces it came, is
/// what the pull decoder makes of it: the same outcome, and the same output.
pub proof fn pushed_like_pulled<O: Output, F: Container>(
    decompressor: &Decompressor<O, F>,
    ia: &[u8],
    ib: &[u8],
    oa: O,
    ob: O,
    r: Result<(), Error>,
)
    requires
        decoded(F::kind(), ia, ib, oa, ob, r),
        infallible(oa),
        oa.terms() == decompressor.output().terms(),
        oa.history() == decompressor.begun(),
        // Everything was consumed, or as much as the stream is.
        decompressor.taken() == ia@ || (decompressor.taken().is_prefix_of(ia@) && halted(
            decompressor.end(),
        )),
    ensures
        r == verdict(decompressor.end()),
        ob.history() == decompressor.end().out,
{
    slice_decoded(F::kind(), ia, ib, oa, ob, r);
    let taken = decompressor.taken();
    if taken != ia@ {
        assert(taken + ia@.skip(taken.len() as int) =~= ia@);
        end_is_final(decompressor.setup(), taken, ia@.skip(taken.len() as int), decompressor.begun());
    }
}

/// Where a gzip stream may end, another one may follow.
proof fn lemma_another_member(setup: Setup, first: Seq<u8>, next: Seq<u8>, out: Seq<u8>)
    requires
        setup.kind is Gzip,
        advance(setup, first, origin(out)).state is Next,
        advance(setup, first, origin(out)).pos == bit_len(first),
        next.len() > 0,
        next[0] == 0x1f,
    ensures
        ({
            let one = advance(setup, first, origin(out));
            let both = advance(setup, first + next, origin(out));
            let other = advance(setup, next, origin(one.out));
            &&& both.state == other.state
            &&& both.out == other.out
            &&& both.pos == bit_len(first) + other.pos
        }),
{
    let one = advance(setup, first, origin(out));
    let fresh = origin(one.out);
    let data = first + next;
    lemma_advance_joined(setup, first, next, origin(out));
    lemma_number_byte(data, first.len() as int);
    lemma_number_byte(next, 0);
    // The first byte of the member, either way.
    let a = Progress { state: State::Member, pos: one.pos + 8, marks: marked(one), ..one };
    let b = Progress { state: State::Member, pos: 8, marks: marked(fresh), ..fresh };
    assert(step(setup, data, one) == Some(a) && step(setup, next, fresh) == Some(b)) by {
        lemma_at_next(setup, one);
        lemma_at_start(setup, fresh);
    }
    // All that the rest of its header keeps is where it is.
    let c = shifted(b, first.len());
    lemma_advance_shift(setup, first, next, b);
    lemma_members_alike(setup, data, a, c);
    assert(advance(setup, data, one) == advance(setup, data, a)) by {
        reveal(advance);
    }
    assert(advance(setup, next, fresh) == advance(setup, next, b)) by {
        reveal(advance);
    }
}

/// What came before a member makes no difference to it.
proof fn lemma_members_alike(setup: Setup, data: Seq<u8>, a: Progress, b: Progress)
    requires
        a.state is Member,
        b.state is Member,
        a.pos == b.pos,
        a.out == b.out,
    ensures
        advance(setup, data, a).state == advance(setup, data, b).state,
        advance(setup, data, a).pos == advance(setup, data, b).pos,
        advance(setup, data, a).out == advance(setup, data, b).out,
{
    lemma_at_member(setup, a);
    lemma_at_member(setup, b);
    reveal(advance);
    if let Some(q) = step(setup, data, a) {
        let s = step(setup, data, b)->0;
        if q.state is Failed {
            lemma_halted_stays(setup, data, q);
            lemma_halted_stays(setup, data, s);
        } else {
            lemma_advance_alike(setup, data, q, s);
        }
    }
}

/// All outputs agree: what decodes to an output decodes the same, on top of
/// whatever was output before, to any other that has room for it, one that does
/// not verify checksums included. So does what fails, unless it has to do with
/// what the outputs take.
pub proof fn outputs_agree(a: Setup, b: Setup, data: Seq<u8>, earlier: Seq<u8>, out: Seq<u8>)
    requires
        a.kind == b.kind,
        b.verify ==> a.verify,
        advance(a, data, origin(out)).state matches State::Failed(error) ==> inherent(a, b, earlier, error),
        as_roomy(a.terms, b.terms, (earlier.len() + advance(a, data, origin(out)).out.len()) as int),
    ensures
        ({
            let one = advance(a, data, origin(out));
            let other = advance(b, data, origin(earlier + out));
            &&& other.state == one.state
            &&& other.pos == one.pos
            &&& other.out == earlier + one.out
        }),
{
    let (p, q) = (origin(out), origin(earlier + out));
    lemma_on_top_start(a.kind, earlier, p, q);
    lemma_advance_atop(a, b, data, earlier, p, q);
    lemma_on_top(a.kind, earlier, advance(a, data, p), advance(b, data, q));
}

/// No window is too small that is as large as what the output takes.
pub proof fn whole_windows_suffice(setup: Setup, data: Seq<u8>, out: Seq<u8>)
    requires
        out.len() <= setup.terms.most <= setup.terms.reach,
    ensures
        advance(setup, data, origin(out)).state != State::Failed(Error::WindowTooSmall),
{
    assert(orderly(setup, origin(out))) by {
        reveal(in_place);
        reveal(crate::decoding::fits);
    }
    lemma_advance_window(setup, data, origin(out));
}

/// Whether two calls come to the same, when one of them fails with `error`:
/// this has nothing to do with what the outputs take.
pub open spec fn shared_error(a: Setup, b: Setup, earlier: Seq<u8>, error: Error) -> bool {
    // A window as large as the output is not the reason of anything.
    inherent(a, b, earlier, error) || (error == Error::WindowTooSmall && a.terms.most <= a.terms.reach)
}

/// The same of decompressing a slice twice: the outcomes are the same, and so
/// is what is output, after whatever was there, and what is left of the slice.
pub proof fn calls_agree<O: Output, P: Output>(
    kind: Kind,
    ia: &[u8],
    ib: &[u8],
    oa: O,
    ob: O,
    r: Result<u64, Error>,
    ic: &[u8],
    pa: P,
    pb: P,
    s: Result<u64, Error>,
)
    requires
        produced(kind, ia, ib, oa, ob, r),
        produced(kind, ia, ic, pa, pb, s),
        infallible(oa),
        infallible(pa),
        oa.history() == Seq::<u8>::empty(),
        P::verifies() ==> O::verifies(),
        r matches Err(error) ==> shared_error(
            Setup { kind, verify: O::verifies(), terms: oa.terms() },
            Setup { kind, verify: P::verifies(), terms: pa.terms() },
            pa.history(),
            error,
        ),
        as_roomy(oa.terms(), pa.terms(), (pa.history().len() + ob.history().len()) as int),
    ensures
        s == r,
        pb.history() == pa.history() + ob.history(),
        ic@ == ib@,
{
    let a = Setup { kind, verify: O::verifies(), terms: oa.terms() };
    let b = Setup { kind, verify: P::verifies(), terms: pa.terms() };
    let (x, y) = (outcome(r), outcome(s));
    slice_decoded(kind, ia, ib, oa, ob, x);
    slice_decoded(kind, ia, ic, pa, pb, y);
    ob.bounds();
    if oa.terms().most <= oa.terms().reach {
        whole_windows_suffice(a, ia@, Seq::empty());
    }
    outputs_agree(a, b, ia@, pa.history(), Seq::empty());
    assert(pa.history() + Seq::<u8>::empty() =~= pa.history());
    assert(ib@.len() == ic@.len());
    assert(ib@ =~= ic@) by {
        assert(ib@ =~= ia@.skip(ia@.len() - ib@.len()));
        assert(ic@ =~= ia@.skip(ia@.len() - ic@.len()));
    }
}

/// An outcome, the number of bytes aside.
pub open spec fn outcome(r: Result<u64, Error>) -> Result<(), Error> {
    match r {
        Ok(_) => Ok(()),
        Err(error) => Err(error),
    }
}

/// What it takes to decode `len` bytes, and no more.
pub open spec fn exactly(kind: Kind, len: nat) -> Setup {
    Setup { kind, verify: true, terms: Terms { most: len as int, reach: len as int, partial: false } }
}

/// Whether `data` is a stream of `plain`, from its first byte to its last,
/// whatever made it.
pub open spec fn stream_of(kind: Kind, data: Seq<u8>, plain: Seq<u8>) -> bool {
    let end = advance(exactly(kind, plain.len()), data, origin(Seq::empty()));
    &&& end.state == if kind is Gzip {
        State::Next
    } else {
        State::Done
    }
    &&& end.pos == bit_len(data)
    &&& end.out == plain
}

/// The compressors make such streams.
pub proof fn compressors_make_streams(kind: Kind, entries: nat, chunks: Seq<Seq<u8>>)
    requires
        kind !is Detect,
    ensures
        stream_of(kind, packed(stream_bits(kind, entries, chunks)), joined(chunks)),
{
    stream_decodes(exactly(kind, joined(chunks).len()), kind, entries, chunks, Seq::empty());
    assert(Seq::<u8>::empty() + joined(chunks) =~= joined(chunks));
}

/// A stream decodes to the same, on top of whatever was output before, to any
/// output that has room for it.
pub proof fn stream_decodes_anywhere(setup: Setup, data: Seq<u8>, plain: Seq<u8>, earlier: Seq<u8>)
    requires
        stream_of(setup.kind, data, plain),
        roomy(setup.terms, (earlier.len() + plain.len()) as int),
    ensures
        ({
            let end = advance(setup, data, origin(earlier));
            &&& end.state == if setup.kind is Gzip {
                State::Next
            } else {
                State::Done
            }
            &&& end.pos == bit_len(data)
            &&& end.out == earlier + plain
        }),
{
    outputs_agree(exactly(setup.kind, plain.len()), setup, data, earlier, Seq::empty());
    assert(earlier + Seq::<u8>::empty() =~= earlier);
}

/// Decompressing a slice that starts with a stream appends what this is a
/// stream of, and tells how much that is. What follows the stream is left,
/// but for the one byte it takes to tell that it is no other gzip member.
pub proof fn streams_decompress<O: Output>(
    kind: Kind,
    data: Seq<u8>,
    plain: Seq<u8>,
    ia: &[u8],
    ib: &[u8],
    oa: O,
    ob: O,
    r: Result<u64, Error>,
)
    requires
        stream_of(kind, data, plain),
        data.is_prefix_of(ia@),
        kind is Gzip && ia@.len() > data.len() ==> ia@[data.len() as int] != 0x1f,
        infallible(oa),
        roomy(oa.terms(), (oa.history().len() + plain.len()) as int),
        ob.sound(),
        produced(kind, ia, ib, oa, ob, r),
    ensures
        r == Ok::<u64, Error>(plain.len() as u64),
        ob.history() == oa.history() + plain,
        ib@ == ia@.skip(
            if kind is Gzip && ia@.len() > data.len() {
                data.len() as int + 1
            } else {
                data.len() as int
            },
        ),
{
    let setup = Setup { kind, verify: O::verifies(), terms: oa.terms() };
    let rest = ia@.skip(data.len() as int);
    let p = origin(oa.history());
    let end = advance(setup, data, p);
    stream_decodes_anywhere(setup, data, plain, oa.history());
    assert(ia@ =~= data + rest);
    lemma_advance_joined(setup, data, rest, p);
    if kind is Gzip {
        lemma_at_next(setup, end);
        reveal(advance);
        if rest.len() > 0 {
            lemma_number_byte(ia@, data.len() as int);
            lemma_halted_stays(setup, ia@, step(setup, ia@, end)->0);
        }
    } else {
        lemma_halted_stays(setup, ia@, end);
    }
    slice_decoded(kind, ia, ib, oa, ob, outcome(r));
    ob.bounds();
    assert(ib@ =~= ia@.skip(ia@.len() - ib@.len()));
}

/// A gzip stream starts like one.
proof fn lemma_gzip_starts(data: Seq<u8>, plain: Seq<u8>)
    requires
        stream_of(Kind::Gzip, data, plain),
    ensures
        data.len() > 0,
        data[0] == 0x1f,
{
    let setup = exactly(Kind::Gzip, plain.len());
    let p = origin(Seq::empty());
    reveal(advance);
    lemma_at_start(setup, p);
    if data.len() > 0 {
        lemma_number_byte(data, 0);
        if let Some(q) = step(setup, data, p) {
            if q.state is Failed {
                lemma_halted_stays(setup, data, q);
            }
        }
    }
}

/// Whatever follows a gzip stream and starts like one counts as one: it decodes,
/// or fails, as it does on its own, on top of what was there.
pub proof fn what_follows_counts(setup: Setup, first: Seq<u8>, x: Seq<u8>, next: Seq<u8>, earlier: Seq<u8>)
    requires
        setup.kind is Gzip,
        stream_of(Kind::Gzip, first, x),
        roomy(setup.terms, (earlier.len() + x.len()) as int),
        next.len() > 0,
        next[0] == 0x1f,
    ensures
        ({
            let both = advance(setup, first + next, origin(earlier));
            let other = advance(setup, next, origin(earlier + x));
            &&& both.state == other.state
            &&& both.out == other.out
            &&& both.pos == bit_len(first) + other.pos
        }),
{
    stream_decodes_anywhere(setup, first, x, earlier);
    lemma_another_member(setup, first, next, earlier);
}

/// Gzip streams one after the other, of any compressor, are a gzip stream of
/// what they are streams of.
pub proof fn members_follow(first: Seq<u8>, x: Seq<u8>, next: Seq<u8>, y: Seq<u8>)
    requires
        stream_of(Kind::Gzip, first, x),
        stream_of(Kind::Gzip, next, y),
    ensures
        stream_of(Kind::Gzip, first + next, x + y),
{
    let setup = exactly(Kind::Gzip, (x + y).len());
    let none = Seq::<u8>::empty();
    assert(none + x =~= x);
    stream_decodes_anywhere(setup, first, x, none);
    stream_decodes_anywhere(setup, next, y, x);
    lemma_gzip_starts(next, y);
    lemma_another_member(setup, first, next, none);
}

/// Decompressing gzip members, and whatever follows that is none, appends what
/// they hold, one after the other.
pub proof fn members_decompress<O: Output>(
    first: Seq<u8>,
    x: Seq<u8>,
    next: Seq<u8>,
    y: Seq<u8>,
    pad: Seq<u8>,
    ia: &[u8],
    ib: &[u8],
    oa: O,
    ob: O,
    r: Result<u64, Error>,
)
    requires
        stream_of(Kind::Gzip, first, x),
        stream_of(Kind::Gzip, next, y),
        pad.len() > 0 ==> pad[0] != 0x1f,
        ia@ == first + next + pad,
        infallible(oa),
        roomy(oa.terms(), (oa.history().len() + x.len() + y.len()) as int),
        ob.sound(),
        produced(Kind::Gzip, ia, ib, oa, ob, r),
    ensures
        r == Ok::<u64, Error>((x.len() + y.len()) as u64),
        ob.history() == oa.history() + x + y,
{
    members_follow(first, x, next, y);
    assert((first + next).is_prefix_of(ia@)) by {
        assert(first + next =~= ia@.subrange(0, (first + next).len() as int));
    }
    streams_decompress(Kind::Gzip, first + next, x + y, ia, ib, oa, ob, r);
    assert(oa.history() + (x + y) =~= oa.history() + x + y);
}

/// A stream that is cut short is not over, and what comes out of it is the
/// start of what it is a stream of: all of it, if this is a gzip stream that is
/// missing no more than the eight bytes of its trailer. The only thing that it
/// may be instead of incomplete is a shorter gzip stream.
pub proof fn truncation_shows(setup: Setup, data: Seq<u8>, plain: Seq<u8>, n: int, earlier: Seq<u8>)
    requires
        stream_of(setup.kind, data, plain),
        setup.kind !is Detect,
        0 <= n < data.len(),
        roomy(setup.terms, (earlier.len() + plain.len()) as int),
    ensures
        ({
            let end = advance(setup, data.take(n), origin(earlier));
            &&& !halted(end)
            &&& end.out.is_prefix_of(earlier + plain)
            &&& verdict(end) == Err::<(), Error>(Error::UnexpectedEof) || exists|some: Seq<u8>| #[trigger]
                stream_of(Kind::Gzip, data.take(n), some)
            &&& setup.kind !is Gzip ==> verdict(end) == Err::<(), Error>(Error::UnexpectedEof)
            &&& setup.kind is Gzip && n + 8 >= data.len() ==> {
                &&& verdict(end) == Err::<(), Error>(Error::UnexpectedEof)
                &&& end.out == earlier + plain
            }
        }),
{
    let one = exactly(setup.kind, plain.len());
    let none = Seq::<u8>::empty();
    let p = origin(none);
    let (some, more) = (data.take(n), data.skip(n));
    let e = advance(one, some, p);
    let end = advance(setup, some, origin(earlier));
    assert(some + more =~= data);
    lemma_cut(one, data, n, none);
    output_follows_input(one, some, more, none);
    outputs_agree(one, setup, some, earlier, none);
    assert(earlier + none =~= earlier);
    assert(end.out =~= (earlier + plain).subrange(0, end.out.len() as int)) by {
        assert(e.out =~= plain.subrange(0, e.out.len() as int));
    }
    assert(orderly(one, p)) by {
        reveal(in_place);
        reveal(crate::decoding::fits);
    }
    lemma_advance_orderly(one, some, p);
    lemma_advance_joined(one, some, more, p);
    lemma_advance_within(one, some, p);
    lemma_advance_over(one, some, p);
    if e.state is Next {
        assert(setup.kind is Gzip && e.pos % 8 == 0) by {
            reveal(in_place);
            reveal(crate::decoding::fits);
        }
        lemma_at_next(one, e);
        let shorter = exactly(Kind::Gzip, e.out.len());
        outputs_agree(one, shorter, some, none, none);
        assert(none + none =~= none);
        assert(none + e.out =~= e.out);
        assert(stream_of(Kind::Gzip, some, e.out));
    }
    if setup.kind is Gzip && n + 8 >= data.len() {
        lemma_all_out(one, some, more, e);
    }
}

/// There is no next step where decoding has got.
proof fn lemma_advance_over(setup: Setup, data: Seq<u8>, p: Progress)
    ensures
        step(setup, data, advance(setup, data, p)) is None,
    decreases bits_left(data, p), rank(p.state),
{
    reveal(advance);
    if let Some(q) = step(setup, data, p) {
        lemma_step_shrinks(setup, data, p);
        lemma_advance_over(setup, data, q);
    }
}

/// Whether `data` is a gzip stream of `plain` that has a single member: nothing
/// that it starts with is one.
pub open spec fn member_of(data: Seq<u8>, plain: Seq<u8>) -> bool {
    &&& stream_of(Kind::Gzip, data, plain)
    &&& forall|n: int, some: Seq<u8>|
        0 <= n < data.len() ==> !(#[trigger] stream_of(Kind::Gzip, data.take(n), some))
}

/// The compressors make gzip streams that have a single member.
pub proof fn compressors_make_members(entries: nat, chunks: Seq<Seq<u8>>)
    ensures
        member_of(packed(stream_bits(Kind::Gzip, entries, chunks)), joined(chunks)),
{
    let data = packed(stream_bits(Kind::Gzip, entries, chunks));
    let plain = joined(chunks);
    let p = origin(Seq::empty());
    compressors_make_streams(Kind::Gzip, entries, chunks);
    assert forall|n: int, some: Seq<u8>| 0 <= n < data.len() implies !(#[trigger] stream_of(
        Kind::Gzip,
        data.take(n),
        some,
    )) by {
        if stream_of(Kind::Gzip, data.take(n), some) {
            let room = if some.len() < plain.len() {
                plain.len()
            } else {
                some.len()
            };
            let setup = exactly(Kind::Gzip, room);
            stream_decodes(setup, Kind::Gzip, entries, chunks, Seq::empty());
            stream_decodes_anywhere(setup, data.take(n), some, Seq::empty());
            lemma_beyond(setup, data.take(n), p);
            lemma_next_forward(setup, data.take(n), p);
            lemma_next_stays(setup, data.take(n), data.skip(n), p);
            assert(data.take(n) + data.skip(n) =~= data);
        }
    }
}

/// The same of a gzip member that is pushed and cut short, in whatever pieces:
/// it never fails, nor ends, and all of its data is there once only its
/// trailer is missing.
pub proof fn truncation_shows_pushed<O: Output, F: Container>(
    decompressor: &Decompressor<O, F>,
    data: Seq<u8>,
    plain: Seq<u8>,
    n: int,
)
    requires
        F::kind() is Gzip,
        member_of(data, plain),
        0 <= n < data.len(),
        decompressor.taken() == data.take(n),
        roomy(decompressor.output().terms(), (decompressor.begun().len() + plain.len()) as int),
    ensures
        // Every piece was consumed, and so would the next be.
        forall|m: int|
            0 <= m < data.len() ==> !halted(
                #[trigger] advance(decompressor.setup(), data.take(m), origin(decompressor.begun())),
            ),
        verdict(decompressor.end()) == Err::<(), Error>(Error::UnexpectedEof),
        decompressor.end().out.is_prefix_of(decompressor.begun() + plain),
        n + 8 >= data.len() ==> decompressor.end().out == decompressor.begun() + plain,
{
    let (setup, begun) = (decompressor.setup(), decompressor.begun());
    truncation_shows(setup, data, plain, n, begun);
    assert forall|m: int| 0 <= m < data.len() implies !halted(
        #[trigger] advance(setup, data.take(m), origin(begun)),
    ) by {
        truncation_shows(setup, data, plain, m, begun);
    }
}

/// A step that the input runs out in changes nothing, nothing is output, and it
/// is taken from where it was once there is more.
pub proof fn dry_steps_wait<O: Output, F: Container>(
    decompressor: &Decompressor<O, F>,
    piece: Seq<u8>,
    more: Seq<u8>,
)
    requires
        step(decompressor.setup(), decompressor.taken() + piece, decompressor.end()) is None,
    ensures
        ({
            let (setup, taken) = (decompressor.setup(), decompressor.taken());
            let p = origin(decompressor.begun());
            &&& advance(setup, taken + piece, p) == decompressor.end()
            &&& advance(setup, taken + piece + more, p) == advance(
                setup,
                taken + piece + more,
                decompressor.end(),
            )
        }),
{
    let (setup, taken) = (decompressor.setup(), decompressor.taken());
    let p = origin(decompressor.begun());
    lemma_advance_joined(setup, taken, piece, p);
    lemma_advance_joined(setup, taken, piece + more, p);
    assert(taken + (piece + more) =~= taken + piece + more);
    reveal(advance);
}

/// Only the first byte of a stream tells gzip from zlib.
proof fn lemma_kinds_agree(a: Setup, b: Setup, data: Seq<u8>, p: Progress)
    requires
        a.kind !is Raw,
        b.kind !is Raw,
        a.verify == b.verify,
        a.terms == b.terms,
        p.state !is Start,
    ensures
        advance(a, data, p) == advance(b, data, p),
    decreases bits_left(data, p), rank(p.state),
{
    reveal(advance);
    lemma_kinds_step(a, b, data, p);
    if let Some(q) = step(a, data, p) {
        lemma_step_shrinks(a, data, p);
        lemma_kinds_agree(a, b, data, q);
    }
}

proof fn lemma_kinds_step(a: Setup, b: Setup, data: Seq<u8>, p: Progress)
    requires
        a.kind !is Raw,
        b.kind !is Raw,
        a.verify == b.verify,
        a.terms == b.terms,
        p.state !is Start,
    ensures
        step(a, data, p) == step(b, data, p),
        step(a, data, p) matches Some(q) ==> q.state !is Start,
{
    match p.state {
        State::Start => {
            lemma_at_start(a, p);
            lemma_at_start(b, p);
        },
        State::Member => {
            lemma_at_member(a, p);
            lemma_at_member(b, p);
        },
        State::Skip(_, _) => {
            lemma_at_skip(a, p);
            lemma_at_skip(b, p);
        },
        State::Fields(_) => {
            lemma_at_fields(a, p);
            lemma_at_fields(b, p);
        },
        State::Block => {
            lemma_at_block(a, p);
            lemma_at_block(b, p);
        },
        State::StoredLen => {
            lemma_at_stored_len(a, p);
            lemma_at_stored_len(b, p);
        },
        State::Stored(_) => {
            lemma_at_stored(a, p);
            lemma_at_stored(b, p);
        },
        State::CodeLengths(_) => {
            lemma_at_code_lengths(a, p);
            lemma_at_code_lengths(b, p);
        },
        State::Lengths(_) => {
            lemma_at_lengths(a, p);
            lemma_at_lengths(b, p);
        },
        State::Length => {
            lemma_at_length(a, p);
            lemma_at_length(b, p);
        },
        State::Distance(_) => {
            lemma_at_distance(a, p);
            lemma_at_distance(b, p);
        },
        State::Checksum => {
            lemma_at_checksum(a, p);
            lemma_at_checksum(b, p);
        },
        State::Size(_) => {
            lemma_at_size(a, p);
            lemma_at_size(b, p);
        },
        State::Next => {
            lemma_at_next(a, p);
            lemma_at_next(b, p);
        },
        _ => {
            lemma_at_end(a, p);
            lemma_at_end(b, p);
        },
    }
}

/// A stream that is to be detected decodes as a gzip one if it starts like one,
/// and as a zlib one else.
pub proof fn detection(setup: Setup, data: Seq<u8>, out: Seq<u8>)
    requires
        setup.kind is Detect,
        data.len() > 0,
    ensures
        data[0] == 0x1f ==> advance(setup, data, origin(out)) == advance(
            Setup { kind: Kind::Gzip, ..setup },
            data,
            origin(out),
        ),
        data[0] != 0x1f ==> advance(setup, data, origin(out)) == advance(
            Setup { kind: Kind::Zlib, ..setup },
            data,
            origin(out),
        ),
{
    let p = origin(out);
    let other = if data[0] == 0x1f {
        Setup { kind: Kind::Gzip, ..setup }
    } else {
        Setup { kind: Kind::Zlib, ..setup }
    };
    lemma_number_byte(data, 0);
    lemma_at_start(setup, p);
    lemma_at_start(other, p);
    reveal(advance);
    if let Some(q) = step(setup, data, p) {
        lemma_kinds_agree(setup, other, data, q);
    }
}

/// Whatever was taken from a slice, what it is tells.
proof fn lemma_detected<O: Output>(
    kind: Kind,
    taken: Seq<u8>,
    ia: &[u8],
    ib: &[u8],
    oa: O,
    ob: O,
    r: Result<(), Error>,
)
    requires
        ia@.len() > 0,
        kind == if ia@[0] == 0x1f {
            Kind::Gzip
        } else {
            Kind::Zlib
        },
    ensures
        decoded_from(Kind::Detect, taken, ia, ib, oa, ob, r) == decoded_from(
            kind,
            taken,
            ia,
            ib,
            oa,
            ob,
            r,
        ),
{
    let setup = Setup { kind: Kind::Detect, verify: O::verifies(), terms: oa.terms() };
    let other = Setup { kind, ..setup };
    if taken.len() == 0 {
        lemma_nothing_taken(setup, oa.history());
        lemma_nothing_taken(other, oa.history());
        assert(taken =~= Seq::<u8>::empty());
    } else if taken[0] == ia@[0] {
        detection(setup, taken, oa.history());
        let out = oa.history();
        if shortest(setup, taken, out) {
            assert forall|n: int| 0 <= n < taken.len() implies !halted(
                #[trigger] advance(other, taken.take(n), origin(out)),
            ) by {
                lemma_detected_in_part(setup, other, taken, n, out);
            }
        }
        if shortest(other, taken, out) {
            assert forall|n: int| 0 <= n < taken.len() implies !halted(
                #[trigger] advance(setup, taken.take(n), origin(out)),
            ) by {
                lemma_detected_in_part(setup, other, taken, n, out);
            }
        }
    } else {
        assert forall|i: &[u8]| !(#[trigger] ia.yields(taken, i)) by {
            assert((taken + i@)[0] == taken[0]);
        }
    }
}

/// What there is of a stream tells what it is.
proof fn lemma_detected_in_part(setup: Setup, other: Setup, taken: Seq<u8>, n: int, out: Seq<u8>)
    requires
        0 <= n < taken.len(),
        setup.kind is Detect,
        other == (Setup {
            kind: if taken[0] == 0x1f {
                Kind::Gzip
            } else {
                Kind::Zlib
            },
            ..setup
        }),
    ensures
        advance(setup, taken.take(n), origin(out)) == advance(other, taken.take(n), origin(out)),
{
    if n == 0 {
        lemma_nothing_taken(setup, out);
        lemma_nothing_taken(other, out);
        assert(taken.take(0) =~= Seq::<u8>::empty());
    } else {
        detection(setup, taken.take(n), out);
    }
}

/// Nothing takes a stream that has a header nowhere.
proof fn lemma_nothing_taken(setup: Setup, out: Seq<u8>)
    requires
        setup.kind !is Raw,
    ensures
        advance(setup, Seq::empty(), origin(out)) == origin(out),
{
    lemma_at_start(setup, origin(out));
    reveal(advance);
}

/// The same of decompressing a slice: whatever can come of detecting what it
/// is can come of knowing it, and the other way round. There is nothing to
/// detect in an empty one.
pub proof fn calls_detect<O: Output>(ia: &[u8], ib: &[u8], oa: O, ob: O, r: Result<u64, Error>)
    ensures
        ia@.len() == 0 && produced(Kind::Detect, ia, ib, oa, ob, r) ==> {
            &&& r == Err::<u64, Error>(Error::UnexpectedEof)
            &&& ob.history() == oa.history()
        },
        ia@.len() > 0 && ia@[0] == 0x1f ==> produced(Kind::Detect, ia, ib, oa, ob, r) == produced(
            Kind::Gzip,
            ia,
            ib,
            oa,
            ob,
            r,
        ),
        ia@.len() > 0 && ia@[0] != 0x1f ==> produced(Kind::Detect, ia, ib, oa, ob, r) == produced(
            Kind::Zlib,
            ia,
            ib,
            oa,
            ob,
            r,
        ),
{
    let done = outcome(r);
    let kind = if ia@.len() > 0 && ia@[0] == 0x1f {
        Kind::Gzip
    } else {
        Kind::Zlib
    };
    if ia@.len() == 0 {
        if decoded(Kind::Detect, ia, ib, oa, ob, done) {
            let taken = choose|taken: Seq<u8>| #[trigger]
                decoded_from(Kind::Detect, taken, ia, ib, oa, ob, done);
            lemma_nothing_taken(
                Setup { kind: Kind::Detect, verify: O::verifies(), terms: oa.terms() },
                oa.history(),
            );
            assert(forall|i: &[u8]| #[trigger] ia.yields(taken, i) ==> taken.len() == 0);
            if taken.len() == 0 {
                assert(taken =~= Seq::<u8>::empty());
            }
        }
    } else {
        assert forall|taken: Seq<u8>|
            decoded_from(Kind::Detect, taken, ia, ib, oa, ob, done) == #[trigger] decoded_from(
                kind,
                taken,
                ia,
                ib,
                oa,
                ob,
                done,
            ) by {
            lemma_detected(kind, taken, ia, ib, oa, ob, done);
        }
        assert(decoded(Kind::Detect, ia, ib, oa, ob, done) == decoded(kind, ia, ib, oa, ob, done)) by {
            if decoded(Kind::Detect, ia, ib, oa, ob, done) {
                let taken = choose|taken: Seq<u8>| #[trigger]
                    decoded_from(Kind::Detect, taken, ia, ib, oa, ob, done);
                assert(decoded_from(kind, taken, ia, ib, oa, ob, done));
            }
            if decoded(kind, ia, ib, oa, ob, done) {
                let taken = choose|taken: Seq<u8>| #[trigger] decoded_from(kind, taken, ia, ib, oa, ob, done);
                assert(decoded_from(Kind::Detect, taken, ia, ib, oa, ob, done));
            }
        }
    }
}

/// Finding the length of a slice comes to what the slice decodes to.
pub proof fn slice_measured(kind: Kind, max_len: u64, ia: &[u8], ib: &[u8], r: Result<u64, Error>)
    requires
        measured(kind, max_len, ia, ib, r),
    ensures
        ({
            let setup = Setup { kind, verify: false, terms: counting(max_len) };
            let end = advance(setup, ia@, origin(Seq::empty()));
            r == match verdict(end) {
                Ok(_) => Ok::<u64, Error>(end.out.len() as u64),
                Err(error) => Err(error),
            }
        }),
{
    let setup = Setup { kind, verify: false, terms: counting(max_len) };
    let taken = choose|taken: Seq<u8>| #[trigger] measured_from(kind, max_len, taken, ia, ib, r);
    let end = advance(setup, taken, origin(Seq::empty()));
    assert(ia@.len() == ia.len() && ib@.len() == ib.len());
    if halted(end) {
        end_is_final(setup, taken, ib@, Seq::empty());
        assert(ia@ =~= taken + ib@);
    } else {
        let error = choose|error: Error| #[trigger] runs_dry(ia, taken, error, ib) && r == if end.state is Next && error
            == Error::UnexpectedEof {
            Ok::<u64, Error>(end.out.len() as u64)
        } else {
            Err(error)
        };
        assert(taken =~= ia@);
    }
}

/// The length functions tell the length that decompressing gives, unless it
/// exceeds the maximum.
pub proof fn length_is_told<O: Output>(
    kind: Kind,
    ia: &[u8],
    ib: &[u8],
    oa: O,
    ob: O,
    len: u64,
    max_len: u64,
    ic: &[u8],
    r: Result<u64, Error>,
)
    requires
        produced(kind, ia, ib, oa, ob, Ok(len)),
        oa.history() == Seq::<u8>::empty(),
        infallible(oa),
        measured(kind, max_len, ia, ic, r),
    ensures
        r == if len <= max_len {
            Ok::<u64, Error>(len)
        } else {
            Err(Error::OutputFull)
        },
{
    let a = Setup { kind, verify: O::verifies(), terms: oa.terms() };
    let b = Setup { kind, verify: false, terms: counting(max_len) };
    slice_decoded(kind, ia, ib, oa, ob, Ok(()));
    slice_measured(kind, max_len, ia, ic, r);
    if len <= max_len {
        outputs_agree(a, b, ia@, Seq::empty(), Seq::empty());
        assert(Seq::<u8>::empty() + ob.history() =~= ob.history());
        assert(Seq::<u8>::empty() + Seq::<u8>::empty() =~= Seq::<u8>::empty());
    } else {
        let p = origin(Seq::empty());
        assert(Seq::<u8>::empty() + p.out =~= p.out);
        lemma_on_top_start(kind, Seq::empty(), p, p);
        lemma_advance_full(a, b, ia@, p, p);
    }
}

proof fn lemma_packed_joined(a: Seq<bool>, b: Seq<bool>)
    requires
        a.len() % 8 == 0,
    ensures
        packed(a + b) == packed(a) + packed(b),
{
    let both = a + b;
    let k = a.len() / 8;
    assert(packed(both) =~= packed(a) + packed(b)) by {
        assert forall|i: int| 0 <= i < packed(both).len() implies packed(both)[i] == (packed(a) + packed(
            b,
        ))[i] by {
            if i < k {
                assert(both.subrange(8 * i, 8 * i + 8) =~= a.subrange(8 * i, 8 * i + 8));
            } else {
                let m = i - k;
                assert(both.subrange(8 * i, 8 * i + 8) =~= b.subrange(8 * m, 8 * m + 8));
            }
        }
    }
}

/// Bytes are packed to what they are.
proof fn lemma_bytes_packed(bytes: Seq<u8>)
    ensures
        packed(byte_bits(bytes)) == bytes,
        byte_bits(bytes).len() == 8 * bytes.len(),
    decreases bytes.len(),
{
    if bytes.len() > 0 {
        let (shorter, last) = (bytes.drop_last(), bytes.last());
        let bits = number_bits(last as nat, 8);
        lemma_bytes_packed(shorter);
        lemma_packed_joined(byte_bits(shorter), bits);
        lemma_packed(bits);
        assert(pow2(8) == 0x100) by {
            lemma2_to64();
        }
        lemma_number_spelt(packed(bits), bits, 0, last as nat, 8);
        lemma_number_byte(packed(bits), 0);
        assert(packed(bits) =~= seq![last]);
        assert(shorter + seq![last] =~= bytes);
    } else {
        assert(packed(byte_bits(bytes)) =~= bytes);
    }
}

/// The containers only add their header and trailer.
pub proof fn containers_only_frame(kind: Kind, entries: nat, chunks: Seq<Seq<u8>>)
    requires
        kind !is Detect,
    ensures
        ({
            let raw = packed(stream_bits(Kind::Raw, entries, chunks));
            let stream = packed(stream_bits(kind, entries, chunks));
            let trailer = packed(word_bits(trailer_of(kind, joined(chunks))));
            &&& stream == header_of(kind) + raw + trailer
            &&& header_of(kind).len() + trailer.len() == match kind {
                Kind::Gzip => 18int,
                Kind::Zlib => 6,
                _ => 0,
            }
        }),
{
    let header = byte_bits(header_of(kind));
    let blocks = chunks_bits(entries, chunks);
    let (body, bare) = (body_bits(kind, entries, chunks), body_bits(Kind::Raw, entries, chunks));
    let words = word_bits(trailer_of(kind, joined(chunks)));
    lemma_bytes_packed(header_of(kind));
    lemma_word_bits_len(trailer_of(kind, joined(chunks)));
    assert(byte_bits(header_of(Kind::Raw)) + blocks =~= blocks);
    assert(body == header + blocks && bare == blocks);
    assert(padding(body + final_bits()) =~= padding(bare + final_bits()));
    assert(ended_bits(body) =~= header + ended_bits(bare));
    assert(word_bits(trailer_of(Kind::Raw, joined(chunks))) =~= Seq::<bool>::empty());
    assert(stream_bits(Kind::Raw, entries, chunks) =~= ended_bits(bare));
    lemma_packed_joined(ended_bits(body), words);
    lemma_packed_joined(header, ended_bits(bare));
}

/// A token never takes more than nine bits for a byte.
proof fn lemma_token_cost(table: Seq<u16>, chunk: Seq<u8>, pos: int, size: nat)
    requires
        0 <= pos < chunk.len(),
    ensures
        token_bits(token(table, chunk, pos, size)).len() <= 9 * reach(token(table, chunk, pos, size)),
{
    lemma_token(table, chunk, pos, size);
    if let Token::Match(len, dist) = token(table, chunk, pos, size) {
        lemma_dist_symbol(dist);
        if len < 258 {
            lemma_length_symbol(len);
        }
        if len == 3 {
            assert(pow2(0) == 1) by {
                lemma2_to64();
            }
            assert(length_symbol(3) == 0);
        }
    }
}

proof fn lemma_tokens_cost(table: Seq<u16>, chunk: Seq<u8>, pos: int, size: nat)
    requires
        0 <= pos <= chunk.len(),
    ensures
        tokens_bits(table, chunk, pos, size).len() <= 9 * (chunk.len() - pos),
    decreases chunk.len() - pos,
{
    if pos < chunk.len() {
        let t = token(table, chunk, pos, size);
        lemma_token(table, chunk, pos, size);
        lemma_token_cost(table, chunk, pos, size);
        lemma_tokens_cost(entered(table, chunk, pos, size), chunk, pos + reach(t), size);
    }
}

/// What cannot be compressed grows by an eighth at worst, and each chunk costs
/// ten bits.
pub proof fn growth_is_bounded(entries: nat, chunks: Seq<Seq<u8>>)
    ensures
        chunks_bits(entries, chunks).len() <= 9 * joined(chunks).len() + 10 * chunks.len(),
    decreases chunks.len(),
{
    if chunks.len() > 0 {
        let size = table_size(entries);
        growth_is_bounded(entries, chunks.drop_last());
        lemma_tokens_cost(clear_table(size), chunks.last(), 0, size);
        assert(end_bits().len() == 7);
    }
}

/// Bits that are read in two goes are those that are read in one, the first
/// ones being the least significant.
pub proof fn reads_join(a: Inflate, b: Inflate, c: Inflate, m: u32, n: u32, x: u16, y: u16)
    requires
        m + n <= 16,
        0 <= a.next(),
        b.next() == a.next() + m,
        b.next() + n <= bit_len(c.data()),
        b.next() <= bit_len(b.data()),
        b.data().is_prefix_of(c.data()),
        x == number(b.data(), a.next(), m as nat),
        y == number(c.data(), b.next(), n as nat),
    ensures
        (x as u32) | ((y as u32) << m) == number(c.data(), a.next(), (m + n) as nat),
{
    let (low, high) = (x as u32, y as u32);
    let rest = c.data().skip(b.data().len() as int);
    assert(c.data() =~= b.data() + rest);
    lemma_number_prefix(b.data(), rest, a.next(), m as nat);
    lemma_number_split(c.data(), a.next(), m as nat, n as nat);
    lemma_number_bound(b.data(), a.next(), m as nat);
    lemma_number_bound(c.data(), b.next(), n as nat);
    lemma_number_bound(c.data(), a.next(), (m + n) as nat);
    assert(1 <= pow2(m as nat) <= 65536 && pow2(n as nat) <= 65536) by {
        lemma2_to64();
        lemma_pow2_pos(m as nat);
        if m < 16 {
            lemma_pow2_strictly_increases(m as nat, 16);
        }
        if n < 16 {
            lemma_pow2_strictly_increases(n as nat, 16);
        }
    }
    assert(high * pow2(m as nat) <= 65535 * 65536) by (nonlinear_arith)
        requires
            high <= 65535,
            pow2(m as nat) <= 65536,
    ;
    lemma_u32_shl_is_mul(high, m);
    lemma_u32_shl_is_mul(1, m);
    assert(low | (high << m) == low + (high << m)) by (bit_vector)
        requires
            m <= 16u32,
            high <= 0xffffu32,
            low < (1u32 << m),
    ;
    assert(high * pow2(m as nat) == pow2(m as nat) * high) by (nonlinear_arith);
}

/// Four bytes, as a number.
proof fn lemma_word(data: Seq<u8>, k: int)
    requires
        0 <= k,
        k + 4 <= data.len(),
    ensures
        number(data, 8 * k, 32) == data[k] + 0x100 * data[k + 1] + 0x1_0000 * data[k + 2] + 0x100_0000
            * data[k + 3],
{
    assert(pow2(8) == 0x100) by {
        lemma2_to64();
    }
    lemma_number_split(data, 8 * k, 8, 24);
    lemma_number_split(data, 8 * k + 8, 8, 16);
    lemma_number_split(data, 8 * k + 16, 8, 8);
    lemma_number_byte(data, k);
    lemma_number_byte(data, k + 1);
    lemma_number_byte(data, k + 2);
    lemma_number_byte(data, k + 3);
}

/// Whether `data` decodes to `plain`, from its first byte to its last.
pub open spec fn decodes_to(setup: Setup, data: Seq<u8>, plain: Seq<u8>) -> bool {
    let end = advance(setup, data, origin(Seq::empty()));
    &&& end.state == if setup.kind is Gzip {
        State::Next
    } else {
        State::Done
    }
    &&& end.pos == bit_len(data)
    &&& end.out == plain
}

/// Where a stream that has a single member ends is where it first may, and its
/// output is delivered nowhere else but where it starts.
pub proof fn lemma_single(setup: Setup, data: Seq<u8>, plain: Seq<u8>)
    requires
        setup.verify,
        setup.kind !is Detect,
        0 <= setup.terms.most,
        decodes_to(setup, data, plain),
        if setup.kind is Gzip {
            member_of(data, plain)
        } else {
            stream_of(setup.kind, data, plain)
        },
    ensures
        tidy(setup, data, 0, advance(setup, data, origin(Seq::empty()))),
        up_to_next(setup, data, origin(Seq::empty())) == advance(setup, data, origin(Seq::empty())),
{
    let p = origin(Seq::empty());
    let end = advance(setup, data, p);
    let first = up_to_next(setup, data, p);
    lemma_beyond(setup, data, p);
    lemma_tidy(setup, data, 0, p);
    if first.state is Next {
        lemma_next_forward(setup, data, p);
        assert(first.pos % 8 == 0) by {
            reveal(in_place);
            reveal(crate::decoding::fits);
            lemma_next_in_place(setup, data, p);
        }
        let n = first.pos / 8;
        let (some, more) = (data.take(n), data.skip(n));
        assert(some + more =~= data);
        lemma_next_local(setup, some, more, p);
        lemma_beyond(setup, some, p);
        assert(advance(setup, some, first) == first) by {
            lemma_at_next(setup, first);
            reveal(advance);
        }
        if n < data.len() {
            outputs_agree(setup, exactly(setup.kind, first.out.len()), some, Seq::empty(), Seq::empty());
            assert(Seq::<u8>::empty() + Seq::<u8>::empty() =~= Seq::<u8>::empty());
            assert(Seq::<u8>::empty() + first.out =~= first.out);
            assert(stream_of(Kind::Gzip, data.take(n), first.out));
        }
        assert(some =~= data);
    }
}

/// The size hint of any gzip stream, whatever made it, is the length of the data
/// of its last member, whatever comes before that, if anything does.
pub proof fn size_hint_tells_of_last(before: Seq<u8>, data: Seq<u8>, plain: Seq<u8>)
    requires
        member_of(data, plain),
    ensures
        (before + data).len() >= 20,
        last_word(before + data) == plain.len() % 0x1_0000_0000,
{
    let setup = exactly(Kind::Gzip, plain.len());
    lemma_single(setup, data, plain);
    lemma_far(setup, data, origin(Seq::empty()));
    lemma_word(data, data.len() - 4);
}

/// The size hint of a gzip stream that the compressors made is the length of its
/// data.
pub proof fn size_hint_tells(entries: nat, chunks: Seq<Seq<u8>>)
    ensures
        ({
            let gz = packed(stream_bits(Kind::Gzip, entries, chunks));
            &&& gz.len() >= 20
            &&& last_word(gz) == joined(chunks).len() % 0x1_0000_0000
        }),
{
    let gz = packed(stream_bits(Kind::Gzip, entries, chunks));
    compressors_make_members(entries, chunks);
    size_hint_tells_of_last(Seq::empty(), gz, joined(chunks));
    assert(Seq::<u8>::empty() + gz =~= gz);
}

/// What precedes a piece is shorter than what all the pieces make, and what it
/// ends is not empty.
proof fn lemma_ends(pieces: Seq<Seq<u8>>, i: int)
    requires
        0 <= i < pieces.len(),
        forall|k: int| 0 <= k < pieces.len() ==> 0 < (#[trigger] pieces[k]).len(),
    ensures
        0 < end_of(pieces, i) <= joined(pieces).len(),
        i < pieces.len() - 1 ==> end_of(pieces, i) < joined(pieces).len(),
    decreases pieces.len(),
{
    let fewer = pieces.drop_last();
    assert(pieces.last() == pieces[pieces.len() - 1]);
    if i == pieces.len() - 1 {
        assert(pieces.take(i + 1) =~= pieces);
    } else {
        assert(pieces.take(i + 1) =~= fewer.take(i + 1));
        assert forall|k: int| 0 <= k < fewer.len() implies 0 < (#[trigger] fewer[k]).len() by {
            assert(fewer[k] == pieces[k]);
        }
        lemma_ends(fewer, i);
    }
}

/// Wherever decompressing a stream invokes the callback, the window is full, or
/// the stream or a member of it starts or ends there.
pub proof fn deliveries<'w, I: Input, F: FnMut(&[u8]) -> Result<(), Error>>(
    kind: Kind,
    ia: I,
    ib: I,
    oa: Stream<'w, F>,
    ob: Stream<'w, F>,
    r: Result<u64, Error>,
)
    requires
        produced(kind, ia, ib, oa, ob, r),
        oa.flushes() == Set::<int>::empty(),
        ob.sound(),
    ensures
        exists|taken: Seq<u8>|
            {
                let setup = Setup { kind, verify: true, terms: oa.terms() };
                &&& #[trigger] decoded_from(kind, taken, ia, ib, oa, ob, outcome(r))
                &&& cut_right(
                    ob.pieces(),
                    oa.terms().reach,
                    advance(setup, taken, origin(oa.history())).marks,
                )
            },
{
    let setup = Setup { kind, verify: true, terms: oa.terms() };
    let taken = choose|taken: Seq<u8>| #[trigger] decoded_from(kind, taken, ia, ib, oa, ob, outcome(r));
    let marks = advance(setup, taken, origin(oa.history())).marks;
    ob.lemma_delivered();
    assert(ob.terms() == oa.terms());
    assert forall|i: int| 0 <= i < ob.pieces().len() implies (#[trigger] end_of(ob.pieces(), i))
        % oa.terms().reach == 0 || marks.contains(end_of(ob.pieces(), i)) by {
        if ob.flushes().contains(end_of(ob.pieces(), i)) {
            assert(oa.flushes().union(marks).contains(end_of(ob.pieces(), i)));
        }
    }
}

/// A stream that does not fail to decode decodes to what it is a stream of.
proof fn lemma_decodes_as_such(setup: Setup, data: Seq<u8>, plain: Seq<u8>)
    requires
        setup.verify,
        stream_of(setup.kind, data, plain),
        advance(setup, data, origin(Seq::empty())).state !is Failed,
    ensures
        decodes_to(setup, data, plain),
{
    let none = Seq::<u8>::empty();
    let end = advance(setup, data, origin(none));
    let room = if end.out.len() < plain.len() {
        plain.len()
    } else {
        end.out.len()
    };
    outputs_agree(setup, exactly(setup.kind, room), data, none, none);
    outputs_agree(exactly(setup.kind, plain.len()), exactly(setup.kind, room), data, none, none);
    assert(none + none =~= none);
    assert(none + plain =~= plain);
    assert(none + end.out =~= end.out);
}

/// Decompressing a stream, a gzip one that has a single member or any other,
/// invokes the callback whenever the window is full, and then once more for
/// what is left, if anything is: every piece but the last ends where the window
/// is full.
pub proof fn windows_are_delivered<'w, F: FnMut(&[u8]) -> Result<(), Error>>(
    kind: Kind,
    data: Seq<u8>,
    plain: Seq<u8>,
    ia: &[u8],
    ib: &[u8],
    oa: Stream<'w, F>,
    ob: Stream<'w, F>,
    len: u64,
)
    requires
        kind !is Detect,
        if kind is Gzip {
            member_of(data, plain)
        } else {
            stream_of(kind, data, plain)
        },
        data.is_prefix_of(ia@),
        kind is Gzip && ia@.len() > data.len() ==> ia@[data.len() as int] != 0x1f,
        oa.history() == Seq::<u8>::empty(),
        oa.flushes() == Set::<int>::empty(),
        ob.sound(),
        produced(kind, ia, ib, oa, ob, Ok(len)),
    ensures
        joined(ob.pieces()) == plain,
        forall|i: int|
            0 <= i < ob.pieces().len() - 1 ==> (#[trigger] end_of(ob.pieces(), i)) % oa.terms().reach == 0,
{
    let setup = Setup { kind, verify: true, terms: oa.terms() };
    let p = origin(Seq::empty());
    let r = Ok::<u64, Error>(len);
    deliveries(kind, ia, ib, oa, ob, r);
    let taken = choose|taken: Seq<u8>|
        {
            &&& #[trigger] decoded_from(kind, taken, ia, ib, oa, ob, outcome(r))
            &&& cut_right(ob.pieces(), oa.terms().reach, advance(setup, taken, p).marks)
        };
    let (end, last) = (advance(setup, data, p), advance(setup, taken, p));
    ob.bounds();
    assert(ia@.len() == ia.len() && ib@.len() == ib.len());
    assert(ia@ =~= taken + ib@);
    if taken.len() < data.len() {
        let rest = data.skip(taken.len() as int);
        assert(data =~= taken + rest);
        lemma_advance_joined(setup, taken, rest, p);
        lemma_halted_stays(setup, data, last);
        lemma_decodes_as_such(setup, data, plain);
    } else {
        let rest = taken.skip(data.len() as int);
        assert(taken =~= data + rest);
        lemma_advance_joined(setup, data, rest, p);
        if end.state is Failed {
            lemma_halted_stays(setup, taken, end);
        }
        lemma_decodes_as_such(setup, data, plain);
        lemma_single(setup, data, plain);
        if kind is Gzip {
            lemma_at_next(setup, end);
            reveal(advance);
            if rest.len() > 0 {
                lemma_number_byte(taken, data.len() as int);
                lemma_halted_stays(setup, taken, step(setup, taken, end)->0);
            }
        } else {
            lemma_halted_stays(setup, taken, end);
        }
        assert(last.marks == end.marks && last.out == plain);
    }
    ob.lemma_delivered();
    assert(ob.history().take(ob.checked()) =~= plain);
    assert forall|i: int| 0 <= i < ob.pieces().len() - 1 implies (#[trigger] end_of(ob.pieces(), i))
        % oa.terms().reach == 0 by {
        lemma_ends(ob.pieces(), i);
    }
}

/// The same of compressing data: every piece but the last ends where the window
/// is full.
pub proof fn compressed_windows_are_delivered<'w, F: FnMut(&[u8]) -> Result<(), Error>>(
    kind: Kind,
    entries: nat,
    data: Seq<u8>,
    oa: Stream<'w, F>,
    ob: Stream<'w, F>,
    len: u64,
)
    requires
        oa.history() == Seq::<u8>::empty(),
        oa.flushes() == Set::<int>::empty(),
        ob.sound(),
        compressed(kind, entries, data, oa, ob, Ok(len)),
    ensures
        joined(ob.pieces()) == packed(stream_bits(kind, entries, seq![data])),
        forall|i: int|
            0 <= i < ob.pieces().len() - 1 ==> (#[trigger] end_of(ob.pieces(), i)) % oa.terms().reach == 0,
{
    let gz = packed(stream_bits(kind, entries, seq![data]));
    ob.lemma_delivered();
    assert(Seq::<u8>::empty() + gz =~= gz);
    assert(ob.history().take(ob.checked()) =~= ob.history());
    assert forall|i: int| 0 <= i < ob.pieces().len() - 1 implies (#[trigger] end_of(ob.pieces(), i))
        % oa.terms().reach == 0 by {
        lemma_ends(ob.pieces(), i);
    }
}

/// Pieces, one before the others.
proof fn lemma_joined_first(first: Seq<u8>, rest: Seq<Seq<u8>>)
    ensures
        joined(seq![first] + rest) == first + joined(rest),
    decreases rest.len(),
{
    let all = seq![first] + rest;
    if rest.len() == 0 {
        assert(all.drop_last() =~= Seq::<Seq<u8>>::empty());
        assert(joined(Seq::<Seq<u8>>::empty()) =~= Seq::<u8>::empty());
        assert(Seq::<u8>::empty() + first =~= first + Seq::<u8>::empty());
    } else {
        lemma_joined_first(first, rest.drop_last());
        assert(all.drop_last() =~= seq![first] + rest.drop_last());
        assert(first + joined(rest.drop_last()) + rest.last() =~= first + (joined(rest.drop_last())
            + rest.last()));
    }
}

proof fn lemma_chunks_hold(data: Seq<u8>, size: nat)
    ensures
        joined(full_chunks(data, size)) + remainder(data, size) == data,
    decreases data.len(),
{
    if size == 0 || data.len() < size {
        assert(Seq::<u8>::empty() + data =~= data);
    } else {
        let (head, tail) = (data.take(size as int), data.skip(size as int));
        lemma_chunks_hold(tail, size);
        lemma_joined_first(head, full_chunks(tail, size));
        assert(head + joined(full_chunks(tail, size)) + remainder(tail, size) =~= head + tail);
        assert(head + tail =~= data);
    }
}

/// Gathering pieces keeps the data, and with a buffer, how it was cut makes no
/// difference: the stream is the same.
pub proof fn gathering(pieces: Seq<Seq<u8>>, others: Seq<Seq<u8>>, size: nat, kind: Kind, entries: nat)
    requires
        size > 0,
        joined(pieces) == joined(others),
    ensures
        joined(regrouped(pieces, size)) == joined(pieces),
        regrouped(pieces, size) == regrouped(others, size),
        stream_bits(kind, entries, regrouped(pieces, size)) == stream_bits(
            kind,
            entries,
            regrouped(others, size),
        ),
{
    let chunks = full_chunks(joined(pieces), size);
    let rest = remainder(joined(pieces), size);
    lemma_chunks_hold(joined(pieces), size);
    if rest.len() == 0 {
        assert(joined(chunks) + rest =~= joined(chunks));
    } else {
        assert(chunks.push(rest).drop_last() =~= chunks);
    }
}

} // verus!
