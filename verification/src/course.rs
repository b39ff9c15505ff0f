//! What the decoder does, held against what streams decode to.

use vstd::prelude::*;

use crate::checksum::Checksum;
use crate::decoding::{advance, halted, orderly, step, Progress, Setup, State};
use crate::error::Error;
use crate::input::Input;
use crate::output::{passed_on, same_output, Output};
use crate::reader::{
    lemma_moved_joined, lemma_moved_nothing, lemma_starved_joined, moved, starved, Inflate, Stop,
};
use crate::steps::{
    lemma_advance_forward, lemma_advance_marks, lemma_advance_started, lemma_halted_stays,
    lemma_step_forward, lemma_step_keeps, lemma_step_local, lemma_step_orderly,
};

verus! {

/// Everything that decoding goes through, at some moment.
pub struct Moment<I, O, C> {
    pub reader: Inflate,
    pub input: I,
    pub out: O,
    pub check: C,
}

impl<I: Input, O: Output, C: Checksum> Moment<I, O, C> {
    /// Whether decoding has got as far as `p`, and can go on.
    pub open spec fn at(self, setup: Setup, p: Progress) -> bool {
        &&& self.reader.sound()
        &&& self.input.ready()
        &&& self.out.sound()
        &&& self.out.terms() == setup.terms
        &&& orderly(setup, p)
        &&& p.pos == self.reader.pos()
        &&& p.out == self.out.history()
    }
}

/// What a step does that only reads, having got as far as `p`.
pub open spec fn told<I: Input>(
    setup: Setup,
    p: Progress,
    a: Inflate,
    ia: I,
    b: Inflate,
    ib: I,
    r: Result<State, Stop>,
) -> bool {
    let next = step(setup, b.taken@, p);
    match r {
        Ok(state) => {
            &&& moved(a, ia, b, ib)
            &&& next is Some
            &&& next->0.state == state
            &&& next->0.pos == b.pos()
            &&& next->0.out == p.out
        },
        Err(Stop::Input(error)) => starved(a, ia, b, ib, error) && next is None,
        Err(Stop::Fail(error)) => {
            &&& moved(a, ia, b, ib)
            &&& next is Some
            &&& next->0.state == State::Failed(error)
            &&& next->0.pos == b.pos()
            &&& next->0.out == p.out
        },
    }
}

/// The output and its checksum went the same way, as far as the output's
/// bytes get to it.
pub open spec fn in_step<I, O: Output, C: Checksum>(m: Moment<I, O, C>, n: Moment<I, O, C>) -> bool {
    &&& m.out.checked() <= n.out.checked()
    &&& O::VERIFY ==> passed_on(n.out.history(), m.out.checked(), n.out.checked(), m.check, n.check)
}

/// The output was only to be delivered where the stream, or a member of it,
/// starts or ends.
pub open spec fn at_marks<O: Output>(a: O, b: O, q: Progress) -> bool {
    b.flushes().subset_of(a.flushes().union(q.marks))
}

/// What a failure tells: the stream calls for it, for what was read up to
/// position `pos`, or the destination of the output failed on its own,
/// somewhere on the way to `q`, with something to deliver.
pub open spec fn fell<O: Output>(a: O, b: O, pos: int, q: Progress, error: Error) -> bool {
    ||| q.state == State::Failed(error) && q.out == b.history() && q.pos == pos
    ||| {
        &&& a.faults().contains(error)
        &&& a.history().is_prefix_of(b.history())
        &&& b.history().is_prefix_of(q.out)
        &&& a.checked() < q.out.len()
        &&& q.state !is Start
    }
}

/// What a step does, having got as far as `p`.
pub open spec fn made<I: Input, O: Output, C: Checksum>(
    setup: Setup,
    p: Progress,
    m: Moment<I, O, C>,
    n: Moment<I, O, C>,
    r: Result<State, Stop>,
) -> bool {
    let next = step(setup, n.reader.taken@, p);
    &&& same_output(m.out, n.out)
    &&& match r {
        Ok(state) => {
            &&& moved(m.reader, m.input, n.reader, n.input)
            &&& next is Some
            &&& next->0.state == state
            &&& next->0.pos == n.reader.pos()
            &&& next->0.out == n.out.history()
            &&& in_step(m, n)
            &&& at_marks(m.out, n.out, next->0)
        },
        Err(Stop::Input(error)) => {
            &&& starved(m.reader, m.input, n.reader, n.input, error)
            &&& next is None
            &&& n.out == m.out
            &&& n.check == m.check
        },
        Err(Stop::Fail(error)) => {
            &&& moved(m.reader, m.input, n.reader, n.input)
            &&& next is Some
            &&& fell(m.out, n.out, n.reader.pos(), next->0, error)
            &&& at_marks(m.out, n.out, next->0)
        },
    }
}

/// Whether `data`, and anything that starts with it, takes decoding from `p`
/// through `q`.
pub open spec fn reaches(setup: Setup, data: Seq<u8>, p: Progress, q: Progress) -> bool {
    forall|more: Seq<u8>| #[trigger]
        advance(setup, data + more, p) == advance(setup, data + more, q)
}

/// What many steps do, from `p` to the one that is returned.
#[verifier::opaque]
pub open spec fn ran<I: Input, O: Output, C: Checksum>(
    setup: Setup,
    p: Progress,
    m: Moment<I, O, C>,
    n: Moment<I, O, C>,
    r: Result<Progress, Stop>,
) -> bool {
    let end = advance(setup, n.reader.taken@, p);
    &&& same_output(m.out, n.out)
    &&& match r {
        Ok(q) => {
            &&& moved(m.reader, m.input, n.reader, n.input)
            &&& reaches(setup, n.reader.taken@, p, q)
            &&& p.out.is_prefix_of(q.out)
            &&& p.marks.subset_of(q.marks)
            &&& n.at(setup, q)
            &&& in_step(m, n)
            &&& at_marks(m.out, n.out, q)
        },
        Err(Stop::Input(error)) => {
            &&& starved(m.reader, m.input, n.reader, n.input, error)
            &&& at_marks(m.out, n.out, end)
            &&& !halted(end)
            &&& end.state !is Next
            &&& end.out == n.out.history()
        },
        Err(Stop::Fail(error)) => {
            &&& moved(m.reader, m.input, n.reader, n.input)
            &&& fell(m.out, n.out, n.reader.pos(), end, error)
            &&& at_marks(m.out, n.out, end)
        },
    }
}

/// Nothing happened to the output nor to the checksum.
pub proof fn lemma_in_step_nothing<I, O: Output, C: Checksum>(m: Moment<I, O, C>, n: Moment<I, O, C>)
    requires
        m.out.sound(),
        n.out == m.out,
        n.check == m.check,
    ensures
        in_step(m, n),
{
    m.out.bounds();
    m.check.absorb_nothing();
    assert(m.out.history().subrange(m.out.checked(), m.out.checked()) =~= Seq::<u8>::empty());
}

pub proof fn lemma_in_step_joined<I, O: Output, C: Checksum>(
    m: Moment<I, O, C>,
    n: Moment<I, O, C>,
    o: Moment<I, O, C>,
)
    requires
        m.out.sound(),
        in_step(m, n),
        in_step(n, o),
        n.out.history().is_prefix_of(o.out.history()),
    ensures
        in_step(m, o),
{
    m.out.bounds();
    if O::VERIFY {
        let (i, j, k) = (m.out.checked(), n.out.checked(), o.out.checked());
        m.check.absorb_joined(n.out.history().subrange(i, j), o.out.history().subrange(j, k));
        assert(o.out.history().subrange(i, k) =~= n.out.history().subrange(i, j)
            + o.out.history().subrange(j, k));
    }
}

/// A step that only reads is a step.
pub proof fn lemma_told_made<I: Input, O: Output, C: Checksum>(
    setup: Setup,
    p: Progress,
    m: Moment<I, O, C>,
    n: Moment<I, O, C>,
    r: Result<State, Stop>,
)
    requires
        m.at(setup, p),
        told(setup, p, m.reader, m.input, n.reader, n.input, r),
        n.out == m.out,
        n.check == m.check,
    ensures
        made(setup, p, m, n, r),
{
    lemma_in_step_nothing(m, n);
}

/// A step leads where it says.
pub proof fn lemma_step_reaches(setup: Setup, data: Seq<u8>, p: Progress)
    requires
        0 <= p.pos,
        step(setup, data, p) is Some,
    ensures
        reaches(setup, data, p, step(setup, data, p)->0),
        advance(setup, data, p) == advance(setup, data, step(setup, data, p)->0),
        p.out.is_prefix_of(step(setup, data, p)->0.out),
{
    reveal(advance);
    let q = step(setup, data, p)->0;
    lemma_step_forward(setup, data, p);
    assert forall|more: Seq<u8>| #[trigger] advance(setup, data + more, p) == advance(
        setup,
        data + more,
        q,
    ) by {
        lemma_step_local(setup, data, more, p);
    }
}

/// What some data reaches, more data does.
pub proof fn lemma_reaches_longer(setup: Setup, data: Seq<u8>, longer: Seq<u8>, p: Progress, q: Progress)
    requires
        reaches(setup, data, p, q),
        data.is_prefix_of(longer),
    ensures
        reaches(setup, longer, p, q),
        advance(setup, longer, p) == advance(setup, longer, q),
{
    let rest = longer.skip(data.len() as int);
    assert(longer =~= data + rest);
    assert(advance(setup, data + rest, p) == advance(setup, data + rest, q));
    assert forall|more: Seq<u8>| #[trigger] advance(setup, longer + more, p) == advance(
        setup,
        longer + more,
        q,
    ) by {
        assert(longer + more =~= data + (rest + more));
        assert(advance(setup, data + (rest + more), p) == advance(setup, data + (rest + more), q));
    }
}

/// No step at all.
pub proof fn lemma_ran_nothing<I: Input, O: Output, C: Checksum>(
    setup: Setup,
    p: Progress,
    m: Moment<I, O, C>,
)
    requires
        m.at(setup, p),
    ensures
        ran(setup, p, m, m, Ok(p)),
{
    reveal(ran);
    lemma_moved_nothing(m.reader, m.input);
    lemma_in_step_nothing(m, m);
}

/// A single step.
pub proof fn lemma_made_ran<I: Input, O: Output, C: Checksum>(
    setup: Setup,
    p: Progress,
    m: Moment<I, O, C>,
    n: Moment<I, O, C>,
    r: Result<State, Stop>,
)
    requires
        m.at(setup, p),
        made(setup, p, m, n, r),
        !halted(p),
        p.state is Next ==> r is Ok,
    ensures
        match r {
            Ok(_) => {
                &&& ran(setup, p, m, n, Ok(step(setup, n.reader.taken@, p)->0))
                &&& n.at(setup, step(setup, n.reader.taken@, p)->0)
            },
            Err(stop) => ran(setup, p, m, n, Err(stop)),
        },
{
    reveal(ran);
    reveal(advance);
    let data = n.reader.taken@;
    if let Some(q) = step(setup, data, p) {
        lemma_step_reaches(setup, data, p);
        lemma_step_orderly(setup, data, p);
        lemma_advance_forward(setup, data, q);
        lemma_step_keeps(setup, data, p);
        lemma_advance_started(setup, data, q);
        lemma_advance_marks(setup, data, q);
        if halted(q) {
            lemma_halted_stays(setup, data, q);
        }
    }
}

/// A single step that only reads.
pub proof fn lemma_told_ran<I: Input, O: Output, C: Checksum>(
    setup: Setup,
    p: Progress,
    m: Moment<I, O, C>,
    n: Moment<I, O, C>,
    r: Result<State, Stop>,
)
    requires
        m.at(setup, p),
        told(setup, p, m.reader, m.input, n.reader, n.input, r),
        n.out == m.out,
        n.check == m.check,
        !halted(p),
        p.state is Next ==> r is Ok,
    ensures
        match r {
            Ok(_) => {
                &&& ran(setup, p, m, n, Ok(step(setup, n.reader.taken@, p)->0))
                &&& n.at(setup, step(setup, n.reader.taken@, p)->0)
            },
            Err(stop) => ran(setup, p, m, n, Err(stop)),
        },
{
    lemma_told_made(setup, p, m, n, r);
    lemma_made_ran(setup, p, m, n, r);
}

/// Some steps, then one more.
pub proof fn lemma_ran_made<I: Input, O: Output, C: Checksum>(
    setup: Setup,
    p: Progress,
    q: Progress,
    m: Moment<I, O, C>,
    n: Moment<I, O, C>,
    o: Moment<I, O, C>,
    r: Result<State, Stop>,
)
    requires
        m.out.sound(),
        p.out == m.out.history(),
        n.at(setup, q),
        ran(setup, p, m, n, Ok(q)),
        made(setup, q, n, o, r),
        !halted(q),
        q.state is Next ==> r is Ok,
    ensures
        match r {
            Ok(_) => {
                &&& ran(setup, p, m, o, Ok(step(setup, o.reader.taken@, q)->0))
                &&& o.at(setup, step(setup, o.reader.taken@, q)->0)
            },
            Err(stop) => ran(setup, p, m, o, Err(stop)),
        },
{
    lemma_made_ran(setup, q, n, o, r);
    match r {
        Ok(_) => {
            lemma_ran_joined(setup, p, q, m, n, o, Ok(step(setup, o.reader.taken@, q)->0));
        },
        Err(stop) => {
            lemma_ran_joined(setup, p, q, m, n, o, Err(stop));
        },
    }
}

/// Some steps, then one more that only reads.
pub proof fn lemma_ran_told<I: Input, O: Output, C: Checksum>(
    setup: Setup,
    p: Progress,
    q: Progress,
    m: Moment<I, O, C>,
    n: Moment<I, O, C>,
    o: Moment<I, O, C>,
    r: Result<State, Stop>,
)
    requires
        m.out.sound(),
        p.out == m.out.history(),
        n.at(setup, q),
        ran(setup, p, m, n, Ok(q)),
        told(setup, q, n.reader, n.input, o.reader, o.input, r),
        o.out == n.out,
        o.check == n.check,
        !halted(q),
        q.state is Next ==> r is Ok,
    ensures
        match r {
            Ok(_) => {
                &&& ran(setup, p, m, o, Ok(step(setup, o.reader.taken@, q)->0))
                &&& o.at(setup, step(setup, o.reader.taken@, q)->0)
            },
            Err(stop) => ran(setup, p, m, o, Err(stop)),
        },
{
    lemma_told_made(setup, q, n, o, r);
    lemma_ran_made(setup, p, q, m, n, o, r);
}

/// Some steps, then some more.
pub proof fn lemma_ran_joined<I: Input, O: Output, C: Checksum>(
    setup: Setup,
    p: Progress,
    q: Progress,
    m: Moment<I, O, C>,
    n: Moment<I, O, C>,
    o: Moment<I, O, C>,
    r: Result<Progress, Stop>,
)
    requires
        m.out.sound(),
        p.out == m.out.history(),
        ran(setup, p, m, n, Ok(q)),
        ran(setup, q, n, o, r),
    ensures
        ran(setup, p, m, o, r),
        r matches Ok(s) ==> o.at(setup, s),
        r is Ok ==> moved(n.reader, n.input, o.reader, o.input),
{
    reveal(ran);
    let data = o.reader.taken@;
    lemma_reaches_longer(setup, n.reader.taken@, data, p, q);
    lemma_advance_marks(setup, data, q);
    match r {
        Ok(s) => {
            lemma_moved_joined(m.reader, m.input, n.reader, n.input, o.reader, o.input);
            lemma_in_step_joined(m, n, o);
            assert forall|more: Seq<u8>| #[trigger] advance(setup, data + more, p) == advance(
                setup,
                data + more,
                s,
            ) by {
                assert(advance(setup, data + more, q) == advance(setup, data + more, s));
            }
            assert(p.out =~= s.out.subrange(0, p.out.len() as int));
        },
        Err(Stop::Input(error)) => {
            lemma_starved_joined(m.reader, m.input, n.reader, n.input, o.reader, o.input, error);
        },
        Err(Stop::Fail(error)) => {
            lemma_moved_joined(m.reader, m.input, n.reader, n.input, o.reader, o.input);
            if n.out.history().is_prefix_of(o.out.history()) {
                assert(p.out =~= o.out.history().subrange(0, p.out.len() as int));
            }
        },
    }
}

/// Delivering the output, which is no step.
pub proof fn lemma_ran_flush<I: Input, O: Output, C: Checksum>(
    setup: Setup,
    p: Progress,
    m: Moment<I, O, C>,
    n: Moment<I, O, C>,
    r: Result<(), Error>,
)
    requires
        m.at(setup, p),
        n.reader == m.reader,
        n.input == m.input,
        same_output(m.out, n.out),
        n.out.history() == m.out.history(),
        at_marks(m.out, n.out, p),
        r is Ok ==> in_step(m, n),
        r matches Err(error) ==> {
            &&& m.out.faults().contains(error)
            &&& m.out.checked() < m.out.history().len()
            &&& p.state !is Start
        },
    ensures
        match r {
            Ok(_) => ran(setup, p, m, n, Ok(p)) && n.at(setup, p),
            Err(error) => ran(setup, p, m, n, Err(Stop::Fail(error))),
        },
{
    reveal(ran);
    lemma_moved_nothing(m.reader, m.input);
    lemma_advance_forward(setup, m.reader.taken@, p);
    lemma_advance_marks(setup, m.reader.taken@, p);
    if p.state !is Start {
        lemma_advance_started(setup, m.reader.taken@, p);
    }
}

/// Which checksum goes along makes no difference to decoding.
pub proof fn lemma_ran_alone<I: Input, O: Output, C: Checksum>(
    setup: Setup,
    p: Progress,
    m: Moment<I, O, C>,
    n: Moment<I, O, C>,
    r: Result<Progress, Stop>,
)
    requires
        ran(setup, p, m, n, r),
    ensures
        ran(
            setup,
            p,
            Moment { reader: m.reader, input: m.input, out: m.out, check: () },
            Moment { reader: n.reader, input: n.input, out: n.out, check: () },
            r,
        ),
        r matches Ok(q) ==> in_step(m, n) && n.at(setup, q),
{
    reveal(ran);
}

/// What comes of all the steps there are, from `p` on: the stream ends or
/// fails, or the destination of the output does, or the input.
pub open spec fn finished<I: Input, O: Output>(
    setup: Setup,
    p: Progress,
    m: Moment<I, O, ()>,
    n: Moment<I, O, ()>,
    r: Result<(), Error>,
) -> bool {
    let end = advance(setup, n.reader.taken@, p);
    &&& same_output(m.out, n.out)
    &&& n.input.ready()
    &&& at_marks(m.out, n.out, end)
    &&& r is Ok ==> n.out.checked() == n.out.history().len()
    &&& {
        ||| {
            &&& moved(m.reader, m.input, n.reader, n.input)
            &&& n.out.history() == end.out
            &&& n.reader.pos() == end.pos
            &&& match end.state {
                State::Done => r is Ok,
                State::Failed(error) => r == Err::<(), Error>(error),
                _ => false,
            }
        }
        ||| {
            &&& moved(m.reader, m.input, n.reader, n.input)
            &&& r is Err
            &&& m.out.faults().contains(r->Err_0)
            &&& m.out.history().is_prefix_of(n.out.history())
            &&& n.out.history().is_prefix_of(end.out)
            &&& m.out.checked() < end.out.len()
            &&& end.state !is Start
        }
        ||| exists|error: Error|
            {
                &&& #[trigger] starved(m.reader, m.input, n.reader, n.input, error)
                &&& !halted(end)
                &&& n.out.history() == end.out
                &&& r == if end.state is Next && error == Error::UnexpectedEof {
                    Ok::<(), Error>(())
                } else {
                    Err(error)
                }
            }
    }
}

/// What comes of steps that could not go on.
pub proof fn lemma_ran_finished<I: Input, O: Output>(
    setup: Setup,
    p: Progress,
    m: Moment<I, O, ()>,
    n: Moment<I, O, ()>,
    stop: Stop,
)
    requires
        ran(setup, p, m, n, Err(stop)),
    ensures
        finished(
            setup,
            p,
            m,
            n,
            Err(
                match stop {
                    Stop::Input(error) => error,
                    Stop::Fail(error) => error,
                },
            ),
        ),
{
    reveal(ran);
}

/// What comes of steps that got to the end.
pub proof fn lemma_ran_done<I: Input, O: Output>(
    setup: Setup,
    p: Progress,
    q: Progress,
    m: Moment<I, O, ()>,
    n: Moment<I, O, ()>,
)
    requires
        ran(setup, p, m, n, Ok(q)),
        q.state is Done,
        n.out.checked() == n.out.history().len(),
    ensures
        finished(setup, p, m, n, Ok(())),
{
    reveal(ran);
    let data = n.reader.taken@;
    assert(data =~= data + Seq::<u8>::empty());
    assert(advance(setup, data + Seq::<u8>::empty(), p) == advance(setup, data + Seq::<u8>::empty(), q));
    lemma_halted_stays(setup, data, q);
}

/// What comes of an input that fails where another gzip member could follow.
pub proof fn lemma_ran_last<I: Input, O: Output>(
    setup: Setup,
    p: Progress,
    q: Progress,
    m: Moment<I, O, ()>,
    n: Moment<I, O, ()>,
    o: Moment<I, O, ()>,
    error: Error,
)
    requires
        ran(setup, p, m, n, Ok(q)),
        q.state is Next,
        starved(n.reader, n.input, o.reader, o.input, error),
        step(setup, o.reader.taken@, q) is None,
        o.out == n.out,
        n.out.checked() == n.out.history().len(),
    ensures
        finished(
            setup,
            p,
            m,
            o,
            if error == Error::UnexpectedEof {
                Ok(())
            } else {
                Err(error)
            },
        ),
{
    reveal(ran);
    reveal(advance);
    lemma_starved_joined(m.reader, m.input, n.reader, n.input, o.reader, o.input, error);
    lemma_reaches_longer(setup, n.reader.taken@, o.reader.taken@, p, q);
}

/// Some steps, then all the others.
pub proof fn lemma_finished_joined<I: Input, O: Output>(
    setup: Setup,
    p: Progress,
    q: Progress,
    m: Moment<I, O, ()>,
    n: Moment<I, O, ()>,
    o: Moment<I, O, ()>,
    r: Result<(), Error>,
)
    requires
        p.out == m.out.history(),
        ran(setup, p, m, n, Ok(q)),
        finished(setup, q, n, o, r),
    ensures
        finished(setup, p, m, o, r),
{
    reveal(ran);
    lemma_reaches_longer(setup, n.reader.taken@, o.reader.taken@, p, q);
    lemma_advance_marks(setup, o.reader.taken@, q);
    if moved(n.reader, n.input, o.reader, o.input) {
        lemma_moved_joined(m.reader, m.input, n.reader, n.input, o.reader, o.input);
    }
    assert forall|error: Error| #[trigger]
        starved(n.reader, n.input, o.reader, o.input, error) implies starved(
        m.reader,
        m.input,
        o.reader,
        o.input,
        error,
    ) by {
        lemma_starved_joined(m.reader, m.input, n.reader, n.input, o.reader, o.input, error);
    }
    if n.out.history().is_prefix_of(o.out.history()) {
        assert(p.out =~= o.out.history().subrange(0, p.out.len() as int));
    }
}

} // verus!
