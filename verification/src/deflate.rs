//! The compressor: greedy LZ77 over a single-probe hash table, coded with
//! deflate's fixed Huffman codes.

use vstd::prelude::*;

use crate::decoding::Kind;
use crate::encoding::{
    back, block_bits, body_bits, byte_bits, chunk_bits, chunks_bits, clear_table, distance_bits,
    end_bits, ended_bits, entered, final_bits, header_of, length_bits, number_bits, packed,
    padding, probes, reach, run, slot, slot_at, stream_bits, table_size, token, token_bits,
    tokens_bits, trailer_of, word_bits, Token,
};
use crate::error::Error;
use crate::format::Format;
use crate::output::{attempted, joined, pour_fault, poured, put_fault, same_output, Output};
use crate::roundtrip::lemma_token;
use crate::writer::{
    fresh_bytes, lemma_packed_prefix, lemma_part_prefix, lemma_parts_prefix,
    lemma_underway_nothing, snapped, underway, Writer,
};

verus! {

/// Returns the largest power of two that is no more than `len`, if any.
fn usable(len: usize) -> (r: usize)
    ensures
        r == table_size(len as nat),
        r <= len,
        r == 0 ==> len == 0,
    decreases len,
{
    if len <= 1 {
        len
    } else {
        2 * usable(len / 2)
    }
}

/// Returns the length of some data, modulo 2<sup>32</sup>, once there are
/// `more` bytes of it.
fn longer(size: u32, more: usize, Ghost(len): Ghost<nat>) -> (r: u32)
    requires
        size == len % 0x1_0000_0000,
    ensures
        r == (len + more) % 0x1_0000_0000,
{
    ((size as u64 + more as u64 % 0x1_0000_0000) % 0x1_0000_0000) as u32
}

/// Returns where in a table of `size` entries three bytes go.
fn hash(a: u8, b: u8, c: u8, size: usize) -> (r: usize)
    requires
        size > 0,
    ensures
        r == slot(a, b, c, size as nat),
        r < size,
{
    let v: u64 = a as u64 + 0x100 * b as u64 + 0x1_0000 * c as u64;
    let x: u64 = (v * 0x9e37_79b1) % 0x1_0000_0000;
    let y: u64 = x ^ (x >> 15);
    (y % size as u64) as usize
}

/// Returns how many bytes, at most 258, are the same at `pos` and `dist` bytes
/// back.
fn same(chunk: &[u8], pos: usize, dist: usize) -> (r: usize)
    requires
        dist <= pos <= chunk@.len(),
    ensures
        r == run(chunk@, pos as int, dist as int, 258),
{
    let mut len: usize = 0;
    while len < 258 && len < chunk.len() - pos && chunk[pos + len] == chunk[pos + len - dist]
        invariant
            dist <= pos <= chunk@.len(),
            len <= 258,
            pos + len <= chunk@.len(),
            run(chunk@, pos as int, dist as int, 258) == len + run(
                chunk@,
                pos + len,
                dist as int,
                (258 - len) as nat,
            ),
        decreases 258 - len,
    {
        len += 1;
    }
    len
}

/// Returns the length and the distance of the match at `pos`, if there is one,
/// and enters that position in the table.
fn find(table: &mut [u16], size: usize, chunk: &[u8], pos: usize) -> (r: Option<(usize, usize)>)
    requires
        size <= old(table)@.len(),
        pos < chunk@.len(),
    ensures
        final(table)@ == entered(old(table)@, chunk@, pos as int, size as nat),
        final(table)@.len() == old(table)@.len(),
        match r {
            Some((len, dist)) => token(old(table)@, chunk@, pos as int, size as nat) == Token::Match(
                len as int,
                dist as int,
            ),
            None => token(old(table)@, chunk@, pos as int, size as nat) == Token::Literal(chunk@[pos as int]),
        },
{
    if size == 0 || chunk.len() - pos < 3 {
        return None;
    }
    let at: usize = hash(chunk[pos], chunk[pos + 1], chunk[pos + 2], size);
    let entry: usize = table[at] as usize;
    let low: usize = pos % 0x1_0000;
    table[at] = low as u16;
    // Positions are kept modulo 65536, which distances are well below.
    let dist: usize = (low + 0x1_0000 - entry) % 0x1_0000;
    assert(dist == back(pos as int, old(table)@[at as int]));
    if dist < 1 || dist > 32768 || dist > pos {
        return None;
    }
    let len: usize = same(chunk, pos, dist);
    if len < 3 {
        return None;
    }
    Some((len, dist))
}

/// Whether two tables agree on all that a chunk can find in them.
spec fn agree(table: Seq<u16>, other: Seq<u16>, chunk: Seq<u8>, size: nat) -> bool {
    forall|pos: int|
        0 <= pos && #[trigger] probes(chunk, pos, size) ==> table[slot_at(chunk, pos, size)]
            == other[slot_at(chunk, pos, size)]
}

/// Tables that agree give the same tokens, and still agree then.
proof fn lemma_agree(table: Seq<u16>, other: Seq<u16>, chunk: Seq<u8>, pos: int, size: nat)
    requires
        agree(table, other, chunk, size),
        0 <= pos,
        size <= table.len(),
        size <= other.len(),
    ensures
        token(table, chunk, pos, size) == token(other, chunk, pos, size),
        agree(entered(table, chunk, pos, size), entered(other, chunk, pos, size), chunk, size),
{
    assert(probes(chunk, pos, size) ==> table[slot_at(chunk, pos, size)] == other[slot_at(chunk, pos, size)]);
}

/// Clears what a chunk can find in the table.
fn clear(table: &mut [u16], size: usize, chunk: &[u8])
    requires
        size <= old(table)@.len(),
    ensures
        agree(final(table)@, clear_table(size as nat), chunk@, size as nat),
        final(table)@.len() == old(table)@.len(),
{
    let ghost blank = clear_table(size as nat);
    let mut i: usize = 0;
    if size <= chunk.len() {
        while i < size
            invariant
                i <= size <= table@.len(),
                table@.len() == old(table)@.len(),
                forall|k: int| 0 <= k < i ==> #[trigger] table@[k] == 0,
            decreases size - i,
        {
            table[i] = 0;
            i += 1;
        }
        return;
    }
    while chunk.len() - i >= 3
        invariant
            i <= chunk@.len() < size <= table@.len(),
            table@.len() == old(table)@.len(),
            forall|pos: int|
                0 <= pos < i && #[trigger] probes(chunk@, pos, size as nat) ==> table@[slot_at(
                    chunk@,
                    pos,
                    size as nat,
                )] == 0,
        decreases chunk@.len() - i,
    {
        let at: usize = hash(chunk[i], chunk[i + 1], chunk[i + 2], size);
        table[at] = 0;
        i += 1;
    }
}

impl Writer {
    /// Writes the block that a chunk makes, if there is anything in it.
    pub fn chunk<O: Output>(
        &mut self,
        out: &mut O,
        table: &mut [u16],
        chunk: &[u8],
        Ghost(first): Ghost<(Writer, O)>,
        Ghost(goal): Ghost<Seq<bool>>,
    ) -> (r: Result<(), Error>)
        requires
            underway(first.0, first.1, *old(self), *old(out)),
            (old(self).bits@ + chunk_bits(old(table)@.len(), chunk@)).is_prefix_of(goal),
        ensures
            chunk@.len() == 0 ==> r is Ok && *final(out) == *old(out),
            &*final((*final(out)).place()) == &*final((*old(out)).place()),
            match r {
                Ok(_) => {
                    &&& underway(first.0, first.1, *final(self), *final(out))
                    &&& final(self).bits@ == old(self).bits@ + chunk_bits(old(table)@.len(), chunk@)
                },
                Err(error) => snapped(first.0, first.1, *final(out), goal, error),
            },
            final(table)@.len() == old(table)@.len(),
    {
        let ghost start = self.bits@;
        if chunk.len() == 0 {
            assert(start + Seq::<bool>::empty() =~= start);
            return Ok(());
        }
        let size: usize = usable(table.len());
        let ghost mut model = clear_table(size as nat);
        let ghost tokens = tokens_bits(model, chunk@, 0, size as nat);
        let ghost all = start + chunk_bits(table@.len(), chunk@);
        proof {
            let head = block_bits(false);
            assert(head + tokens + end_bits() =~= head + (tokens + end_bits()));
            lemma_parts_prefix(start, head, tokens + end_bits(), goal);
            lemma_three_bits(start, false, goal);
        }
        self.bit(out, false, Ghost(first), Ghost(goal))?;
        self.bit(out, true, Ghost(first), Ghost(goal))?;
        self.bit(out, false, Ghost(first), Ghost(goal))?;
        assert(self.bits@ =~= start + block_bits(false));
        // What is there may have been left by anything, and should not change
        // what comes out.
        clear(table, size, chunk);
        let mut pos: usize = 0;
        assert(self.bits@ + (tokens + end_bits()) =~= all);
        while pos < chunk.len()
            invariant
                &*final((*out).place()) == &*final((*old(out)).place()),
                pos <= chunk@.len(),
                size <= table@.len(),
                table@.len() == old(table)@.len(),
                model.len() == size,
                agree(table@, model, chunk@, size as nat),
                underway(first.0, first.1, *self, *out),
                all.is_prefix_of(goal),
                self.bits@ + (tokens_bits(model, chunk@, pos as int, size as nat) + end_bits()) == all,
            decreases chunk@.len() - pos,
        {
            let ghost t = token(model, chunk@, pos as int, size as nat);
            let ghost next = entered(model, chunk@, pos as int, size as nat);
            let ghost rest = tokens_bits(next, chunk@, pos + reach(t), size as nat);
            let ghost bits = self.bits@;
            proof {
                lemma_agree(table@, model, chunk@, pos as int, size as nat);
                lemma_token(model, chunk@, pos as int, size as nat);
                assert(token_bits(t) + rest + end_bits() =~= token_bits(t) + (rest + end_bits()));
                lemma_parts_prefix(bits, token_bits(t), rest + end_bits(), goal);
                model = next;
            }
            match find(table, size, chunk, pos) {
                None => {
                    self.symbol(out, chunk[pos] as u32, Ghost(first), Ghost(goal))?;
                    pos += 1;
                },
                Some((len, dist)) => {
                    proof {
                        lemma_parts_prefix(bits, length_bits(len as int), distance_bits(dist as int), goal);
                    }
                    self.length(out, len as u32, Ghost(first), Ghost(goal))?;
                    self.distance(out, dist as u32, Ghost(first), Ghost(goal))?;
                    pos += len;
                },
            }
            assert(self.bits@ =~= bits + token_bits(t));
            assert(self.bits@ + (rest + end_bits()) =~= bits + (token_bits(t) + rest + end_bits()));
        }
        proof {
            assert(self.bits@ + (Seq::<bool>::empty() + end_bits()) =~= self.bits@ + end_bits());
        }
        self.symbol(out, 256, Ghost(first), Ghost(goal))
    }
}

/// What starts with the header of a block starts with each bit of it.
proof fn lemma_three_bits(start: Seq<bool>, last: bool, goal: Seq<bool>)
    requires
        (start + block_bits(last)).is_prefix_of(goal),
    ensures
        start.push(last).is_prefix_of(goal),
        start.push(last).push(true).is_prefix_of(goal),
        start.push(last).push(true).push(false).is_prefix_of(goal),
        start.push(last).push(true).push(false) == start + block_bits(last),
{
    let whole = start + block_bits(last);
    let three = start.push(last).push(true).push(false);
    assert(three =~= whole);
    assert(start.push(last) =~= three.subrange(0, start.len() as int + 1));
    assert(start.push(last).push(true) =~= three.subrange(0, start.len() as int + 2));
    assert(start.push(last) =~= goal.subrange(0, start.len() as int + 1)) by {
        assert forall|i: int| 0 <= i < start.len() + 1 implies start.push(last)[i] == goal[i] by {
            assert(whole[i] == goal.subrange(0, whole.len() as int)[i]);
        }
    }
    assert(start.push(last).push(true) =~= goal.subrange(0, start.len() as int + 2)) by {
        assert forall|i: int| 0 <= i < start.len() + 2 implies start.push(last).push(true)[i] == goal[i] by {
            assert(whole[i] == goal.subrange(0, whole.len() as int)[i]);
        }
    }
}

impl Writer {
    /// Writes zeros up to a byte boundary.
    pub fn pad<O: Output>(
        &mut self,
        out: &mut O,
        Ghost(first): Ghost<(Writer, O)>,
        Ghost(goal): Ghost<Seq<bool>>,
    ) -> (r: Result<(), Error>)
        requires
            underway(first.0, first.1, *old(self), *old(out)),
            (old(self).bits@ + padding(old(self).bits@)).is_prefix_of(goal),
        ensures
            &*final((*final(out)).place()) == &*final((*old(out)).place()),
            match r {
                Ok(_) => {
                    &&& underway(first.0, first.1, *final(self), *final(out))
                    &&& final(self).bits@ == old(self).bits@ + padding(old(self).bits@)
                },
                Err(error) => snapped(first.0, first.1, *final(out), goal, error),
            },
    {
        let ghost start = self.bits@;
        let ghost pad = padding(start);
        let ghost mut n: int = 0;
        assert(start =~= start + pad.take(0));
        while self.bit_cnt != 0
            invariant
                &*final((*out).place()) == &*final((*old(out)).place()),
                0 <= n <= pad.len(),
                pad == padding(start),
                underway(first.0, first.1, *self, *out),
                (start + pad).is_prefix_of(goal),
                self.bits@ == start + pad.take(n),
            decreases pad.len() - n,
        {
            proof {
                lemma_part_prefix(start, pad, n, goal);
            }
            self.bit(out, false, Ghost(first), Ghost(goal))?;
            proof {
                n = n + 1;
            }
        }
        assert(pad.take(n) =~= pad);
        Ok(())
    }

    /// Writes the header of a format.
    pub fn header<O: Output, F: Format>(
        &mut self,
        out: &mut O,
        Ghost(first): Ghost<(Writer, O)>,
        Ghost(goal): Ghost<Seq<bool>>,
    ) -> (r: Result<(), Error>)
        requires
            underway(first.0, first.1, *old(self), *old(out)),
            (old(self).bits@ + byte_bits(header_of(F::kind()))).is_prefix_of(goal),
        ensures
            &*final((*final(out)).place()) == &*final((*old(out)).place()),
            match r {
                Ok(_) => {
                    &&& underway(first.0, first.1, *final(self), *final(out))
                    &&& final(self).bits@ == old(self).bits@ + byte_bits(header_of(F::kind()))
                },
                Err(error) => snapped(first.0, first.1, *final(out), goal, error),
            },
    {
        let ghost start = self.bits@;
        let ghost header = header_of(F::kind());
        let mut i: usize = 0;
        proof {
            assert(header.take(0) =~= Seq::<u8>::empty());
            assert(start =~= start + byte_bits(header.take(0)));
        }
        loop
            invariant
                &*final((*out).place()) == &*final((*old(out)).place()),
                i <= header.len() <= 10,
                header == header_of(F::kind()),
                underway(first.0, first.1, *self, *out),
                (start + byte_bits(header)).is_prefix_of(goal),
                self.bits@ == start + byte_bits(header.take(i as int)),
            ensures
                i == header.len(),
            decreases header.len() - i,
        {
            let byte: u8 = match F::header_byte(i) {
                Some(byte) => byte,
                None => {
                    break;
                },
            };
            proof {
                let shorter = header.take(i as int);
                let longer = header.take(i + 1);
                assert(longer.drop_last() =~= shorter);
                lemma_byte_bits_prefix(header, i + 1);
                let rest = byte_bits(header).skip(byte_bits(longer).len() as int);
                assert(byte_bits(header) =~= byte_bits(longer) + rest);
                lemma_parts_prefix(start, byte_bits(longer), rest, goal);
                assert(start + byte_bits(longer) =~= self.bits@ + number_bits(byte as nat, 8));
            }
            self.number(out, byte as u32, 8, Ghost(first), Ghost(goal))?;
            i += 1;
        }
        assert(header.take(i as int) =~= header);
        Ok(())
    }
}

/// Bytes start with the first of them.
proof fn lemma_byte_bits_prefix(bytes: Seq<u8>, n: int)
    requires
        0 <= n <= bytes.len(),
    ensures
        byte_bits(bytes.take(n)).is_prefix_of(byte_bits(bytes)),
    decreases bytes.len() - n,
{
    if n < bytes.len() {
        lemma_byte_bits_prefix(bytes, n + 1);
        let longer = bytes.take(n + 1);
        assert(longer.drop_last() =~= bytes.take(n));
        let (a, b) = (byte_bits(bytes.take(n)), byte_bits(bytes));
        assert(byte_bits(longer) == a + number_bits(longer.last() as nat, 8));
        assert forall|i: int| 0 <= i < a.len() implies a[i] == b[i] by {
            assert(byte_bits(longer)[i] == b.subrange(0, byte_bits(longer).len() as int)[i]);
        }
        assert(a =~= b.subrange(0, a.len() as int));
    } else {
        assert(bytes.take(n) =~= bytes);
    }
}

/// A writer that nothing was written to yet.
spec fn blank() -> Writer {
    Writer { bit_buf: 0, bit_cnt: 0, bits: Ghost(Seq::empty()) }
}

/// What `r` tells of an attempt to append what `bits` makes to the output
/// `oa`, which it took to `ob`.
pub open spec fn sent<O: Output>(oa: O, ob: O, bits: Seq<bool>, r: Result<(), Error>) -> bool {
    &&& same_output(oa, ob)
    // The output was not to be delivered, unless all of it was.
    &&& ob.flushes().subset_of(oa.flushes().insert(ob.history().len() as int))
    &&& attempted(
        oa.history(),
        ob.history(),
        r,
        poured(oa.terms(), oa.history(), packed(bits)),
        pour_fault(oa.terms(), oa.history(), packed(bits)),
        oa.faults(),
    )
}

/// Compresses format `F`, a chunk at a time: [`Gzip`](crate::Gzip),
/// [`Zlib`](crate::Zlib) or [`Raw`](crate::Raw).
///
/// The compressed data goes to any [`Output`]: a [`Buffer`](crate::Buffer), a
/// [`Stream`](crate::Stream), whose window is then a mere buffer, of any size,
/// or a [`Counter`](crate::Counter) to only learn the compressed length.
///
/// The table is yours: any number of entries, of which the largest power of
/// two gets used. It need not be cleared: what it held makes no difference. An
/// empty one still gets the Huffman coding done.
///
/// Matches are only looked for within a chunk, so larger chunks compress
/// better, and each chunk costs ten bits. What cannot be compressed grows by
/// an eighth at worst.
pub struct Compressor<'t, O, F> {
    out: O,
    table: &'t mut [u16],
    format: F,
    /// The length of the data, modulo 2<sup>32</sup>.
    size: u32,
    writer: Writer,
    started: bool,
    failed: Option<Error>,
    /// Where the output was when the stream started.
    begin: u64,
    origin: Ghost<O>,
    chunks: Ghost<Seq<Seq<u8>>>,
}

impl<'t, O: Output, F: Format> Compressor<'t, O, F> {
    /// The output.
    pub closed spec fn output(&self) -> O {
        self.out
    }

    /// The output, as it was when the stream started.
    pub closed spec fn origin(&self) -> O {
        self.origin@
    }

    /// How many entries the table has.
    pub closed spec fn entries(&self) -> nat {
        self.table@.len()
    }

    /// The table.
    pub closed spec fn table(&self) -> &mut [u16] {
        self.table
    }

    /// The chunks of the stream so far.
    pub closed spec fn chunks(&self) -> Seq<Seq<u8>> {
        self.chunks@
    }

    /// The error with which the output failed, if it did.
    pub closed spec fn failed(&self) -> Option<Error> {
        self.failed
    }

    /// Whether the compressor is in order.
    pub closed spec fn sound(&self) -> bool {
        &&& self.out.sound()
        &&& self.origin@.sound()
        &&& same_output(self.origin@, self.out)
        &&& self.out.flushes() == self.origin@.flushes()
        &&& self.begin == self.origin@.history().len()
        &&& self.origin@.history().is_prefix_of(self.out.history())
        &&& self.failed is None ==> {
            &&& underway(blank(), self.origin@, self.writer, self.out)
            &&& self.writer.bits@ == if self.started {
                body_bits(F::kind(), self.entries(), self.chunks@)
            } else {
                Seq::<bool>::empty()
            }
            &&& !self.started ==> self.chunks@.len() == 0
            &&& self.format == F::fresh(F::kind() is Gzip).absorb(joined(self.chunks@))
            &&& self.size == joined(self.chunks@).len() % 0x1_0000_0000
        }
    }

    /// The output of a compressor that is in order is so as well.
    pub proof fn lemma_output_sound(&self)
        requires
            self.sound(),
        ensures
            self.output().sound(),
            same_output(self.origin(), self.output()),
            self.output().flushes() == self.origin().flushes(),
    {
    }

    /// Starts compressing a stream to `output`, finding matches with `table`.
    pub fn new(output: O, table: &'t mut [u16]) -> (r: Self)
        requires
            output.sound(),
        ensures
            r.sound(),
            r.output() == output,
            r.origin() == output,
            r.entries() == old(table)@.len(),
            &*final(r.table()) == &*final(table),
            r.chunks() == Seq::<Seq<u8>>::empty(),
            r.failed() is None,
    {
        let begin: u64 = output.written();
        let writer: Writer = Writer::new();
        let format: F = F::new();
        proof {
            lemma_underway_blank(writer, output);
            F::fresh(F::kind() is Gzip).absorb_nothing();
        }
        Compressor {
            origin: Ghost(output),
            out: output,
            table,
            format,
            size: 0,
            writer,
            started: false,
            failed: None,
            begin,
            chunks: Ghost(Seq::empty()),
        }
    }

    /// Nothing more is to come to the output, nor to the table, once nothing
    /// more is to come here.
    pub proof fn lemma_resolved(&self)
        ensures
            has_resolved(*self) ==> has_resolved(self.output()),
            has_resolved(*self) ==> (*final(self.table()))@.len() == self.entries(),
    {
    }

    /// The error with which the output failed, if it did.
    pub fn failure(&self) -> (r: Option<Error>)
        ensures
            r == self.failed(),
    {
        self.failed
    }

    /// Writes the header, unless that was done.
    fn start(&mut self, Ghost(goal): Ghost<Seq<bool>>) -> (r: Result<(), Error>)
        requires
            old(self).sound(),
            old(self).failed is None,
            body_bits(F::kind(), old(self).entries(), old(self).chunks@).is_prefix_of(goal),
        ensures
            old(self).started ==> r is Ok && final(self).out == old(self).out,
            match r {
                Ok(_) => {
                    &&& final(self).sound()
                    &&& final(self).started
                    &&& final(self).format == old(self).format
                    &&& final(self).size == old(self).size
                },
                Err(error) => snapped(blank(), old(self).origin@, final(self).out, goal, error),
            },
            final(self).failed is None,
            final(self).origin == old(self).origin,
            &*final(final(self).out.place()) == &*final(old(self).out.place()),
            &*final(final(self).table()) == &*final(old(self).table()),
            final(self).begin == old(self).begin,
            final(self).chunks == old(self).chunks,
            final(self).table@.len() == old(self).table@.len(),
    {
        if !self.started {
            let ghost first = (blank(), self.origin@);
            proof {
                let bits = byte_bits(header_of(F::kind()));
                assert(chunks_bits(self.entries(), self.chunks@) =~= Seq::<bool>::empty());
                assert(body_bits(F::kind(), self.entries(), self.chunks@) =~= bits);
                assert(self.writer.bits@ + bits =~= bits);
            }
            self.writer.header::<O, F>(&mut self.out, Ghost(first), Ghost(goal))?;
            self.started = true;
            proof {
                lemma_underway_grows(blank(), self.origin@, self.writer, self.out);
            }
        }
        Ok(())
    }

    /// Writes the block that a chunk makes, after the header if it is the
    /// first.
    fn emit(&mut self, chunk: &[u8], Ghost(goal): Ghost<Seq<bool>>) -> (r: Result<(), Error>)
        requires
            old(self).sound(),
            old(self).failed is None,
            goal == body_bits(F::kind(), old(self).entries(), old(self).chunks@.push(chunk@)),
        ensures
            old(self).started && chunk@.len() == 0 ==> r is Ok && final(self).out == old(self).out,
            match r {
                Ok(_) => {
                    &&& underway(blank(), old(self).origin@, final(self).writer, final(self).out)
                    &&& final(self).writer.bits@ == goal
                    &&& final(self).started
                    &&& final(self).format == old(self).format
                    &&& final(self).size == old(self).size
                },
                Err(error) => snapped(blank(), old(self).origin@, final(self).out, goal, error),
            },
            final(self).failed is None,
            final(self).origin == old(self).origin,
            &*final(final(self).out.place()) == &*final(old(self).out.place()),
            &*final(final(self).table()) == &*final(old(self).table()),
            final(self).begin == old(self).begin,
            final(self).chunks == old(self).chunks,
            final(self).table@.len() == old(self).table@.len(),
    {
        let ghost first = (blank(), self.origin@);
        proof {
            lemma_chunk_more(F::kind(), self.entries(), self.chunks@, chunk@);
        }
        self.start(Ghost(goal))?;
        self.writer.chunk(&mut self.out, self.table, chunk, Ghost(first), Ghost(goal))
    }

    /// Compresses the next chunk of the stream.
    ///
    /// Once an error is returned, it is all that is ever returned, until the
    /// stream is finished.
    pub fn write(&mut self, chunk: &[u8]) -> (r: Result<(), Error>)
        requires
            old(self).sound(),
        ensures
            final(self).sound(),
            final(self).origin() == old(self).origin(),
            final(self).output().flushes() == old(self).output().flushes(),
            &*final(final(self).output().place()) == &*final(old(self).output().place()),
            &*final(final(self).table()) == &*final(old(self).table()),
            final(self).entries() == old(self).entries(),
            // There is nothing to an empty chunk, past the header.
            old(self).failed() is None && old(self).chunks().len() > 0 && chunk@.len() == 0 ==> {
                &&& r is Ok
                &&& final(self).output() == old(self).output()
            },
            match old(self).failed() {
                Some(error) => {
                    &&& r == Err::<(), Error>(error)
                    &&& final(self).failed() == old(self).failed()
                    &&& final(self).output() == old(self).output()
                },
                None => {
                    let chunks = old(self).chunks().push(chunk@);
                    &&& sent(
                        old(self).origin(),
                        final(self).output(),
                        body_bits(F::kind(), old(self).entries(), chunks),
                        r,
                    )
                    &&& match r {
                        Ok(_) => final(self).failed() is None && final(self).chunks() == chunks,
                        Err(error) => final(self).failed() == Some(error),
                    }
                },
            },
    {
        if let Some(error) = self.failed {
            return Err(error);
        }
        let ghost chunks = self.chunks@.push(chunk@);
        let ghost goal = body_bits(F::kind(), self.entries(), chunks);
        proof {
            lemma_chunk_more(F::kind(), self.entries(), self.chunks@, chunk@);
            F::fresh(F::kind() is Gzip).absorb_joined(joined(self.chunks@), chunk@);
        }
        match self.emit(chunk, Ghost(goal)) {
            Ok(()) => {},
            Err(error) => {
                self.failed = Some(error);
                proof {
                    lemma_snapped_sent(self.origin@, self.out, goal, error);
                }
                return Err(error);
            },
        }
        self.format.update(chunk);
        self.size = longer(self.size, chunk.len(), Ghost(joined(self.chunks@).len()));
        self.chunks = Ghost(chunks);
        proof {
            lemma_underway_grows(blank(), self.origin@, self.writer, self.out);
            lemma_underway_sent(self.origin@, self.writer, self.out);
        }
        Ok(())
    }

    /// Writes the end of the stream: an empty last block, then the trailer.
    fn end(&mut self, Ghost(goal): Ghost<Seq<bool>>) -> (r: Result<(), Error>)
        requires
            old(self).sound(),
            old(self).failed is None,
            goal == stream_bits(F::kind(), old(self).entries(), old(self).chunks@),
        ensures
            match r {
                Ok(_) => {
                    &&& underway(blank(), old(self).origin@, final(self).writer, final(self).out)
                    &&& final(self).writer.bits@ == goal
                },
                Err(error) => snapped(blank(), old(self).origin@, final(self).out, goal, error),
            },
            final(self).origin == old(self).origin,
            &*final(final(self).out.place()) == &*final(old(self).out.place()),
            &*final(final(self).table()) == &*final(old(self).table()),
            final(self).begin == old(self).begin,
            final(self).table@.len() == old(self).table@.len(),
    {
        let ghost first = (blank(), self.origin@);
        let ghost body = body_bits(F::kind(), self.entries(), self.chunks@);
        let ghost data = joined(self.chunks@);
        proof {
            lemma_end_parts(F::kind(), body, data, goal);
            lemma_three_bits(body, true, goal);
        }
        self.start(Ghost(goal))?;
        self.writer.bit(&mut self.out, true, Ghost(first), Ghost(goal))?;
        self.writer.bit(&mut self.out, true, Ghost(first), Ghost(goal))?;
        self.writer.bit(&mut self.out, false, Ghost(first), Ghost(goal))?;
        self.writer.symbol(&mut self.out, 256, Ghost(first), Ghost(goal))?;
        assert(self.writer.bits@ =~= body + final_bits());
        self.writer.pad(&mut self.out, Ghost(first), Ghost(goal))?;
        let words: [u32; 2] = self.format.trailer(self.size);
        proof {
            F::framed();
            F::definite();
            if F::kind() !is Raw {
                F::sums(F::kind() is Gzip, data, self.size);
            }
            lemma_trailer_parts(F::kind(), ended_bits(body), data, goal);
        }
        if F::TRAILER > 0 {
            self.writer.number(&mut self.out, words[0], 32, Ghost(first), Ghost(goal))?;
        }
        if F::TRAILER > 1 {
            self.writer.number(&mut self.out, words[1], 32, Ghost(first), Ghost(goal))?;
        }
        Ok(())
    }

    /// Ends the stream, and delivers all of it. Returns its length.
    ///
    /// The compressor is then ready for another stream, to the same output.
    pub fn finish(&mut self) -> (r: Result<u64, Error>)
        requires
            old(self).sound(),
        ensures
            final(self).sound(),
            final(self).origin() == final(self).output(),
            &*final(final(self).output().place()) == &*final(old(self).output().place()),
            &*final(final(self).table()) == &*final(old(self).table()),
            final(self).entries() == old(self).entries(),
            final(self).chunks() == Seq::<Seq<u8>>::empty(),
            final(self).failed() is None,
            match old(self).failed() {
                Some(error) => {
                    &&& r == Err::<u64, Error>(error)
                    &&& final(self).output() == old(self).output()
                },
                None => {
                    let bits = stream_bits(F::kind(), old(self).entries(), old(self).chunks());
                    let out = final(self).output();
                    match r {
                        Ok(len) => {
                            &&& sent(old(self).origin(), out, bits, Ok(()))
                            &&& len == packed(bits).len()
                            &&& out.checked() == out.history().len()
                        },
                        Err(error) => sent(old(self).origin(), out, bits, Err(error)),
                    }
                },
            },
    {
        let ghost goal = stream_bits(F::kind(), self.entries(), self.chunks@);
        let begin: u64 = self.begin;
        let r: Result<(), Error> = match self.failed {
            Some(error) => Err(error),
            None => match self.end(Ghost(goal)) {
                Ok(()) => {
                    let ghost before = self.out;
                    let mut nothing: () = ();
                    let r: Result<(), Error> = self.out.flush(&mut nothing);
                    proof {
                        lemma_underway_sent(self.origin@, self.writer, before);
                        lemma_underway_grows(blank(), self.origin@, self.writer, before);
                        let h = before.history();
                        assert(h =~= h.subrange(0, h.len() as int));
                    }
                    r
                },
                Err(error) => {
                    proof {
                        lemma_snapped_sent(self.origin@, self.out, goal, error);
                    }
                    Err(error)
                },
            },
        };
        let end: u64 = self.out.written();
        self.begin = end;
        self.format = F::new();
        self.size = 0;
        self.writer = Writer::new();
        self.started = false;
        self.failed = None;
        self.origin = Ghost(self.out);
        self.chunks = Ghost(Seq::empty());
        proof {
            lemma_underway_blank(self.writer, self.out);
            F::fresh(F::kind() is Gzip).absorb_nothing();
            let h = self.out.history();
            assert(h =~= h.subrange(0, h.len() as int));
        }
        match r {
            Ok(()) => Ok(end - begin),
            Err(error) => Err(error),
        }
    }
}

/// The parts of the end of a stream.
proof fn lemma_end_parts(kind: Kind, body: Seq<bool>, data: Seq<u8>, goal: Seq<bool>)
    requires
        goal == ended_bits(body) + word_bits(trailer_of(kind, data)),
    ensures
        body.is_prefix_of(goal),
        (body + block_bits(true)).is_prefix_of(goal),
        (body + block_bits(true) + end_bits()).is_prefix_of(goal),
        body + block_bits(true) + end_bits() == body + final_bits(),
        (body + final_bits() + padding(body + final_bits())).is_prefix_of(goal),
{
    let trailer = word_bits(trailer_of(kind, data));
    let ended = ended_bits(body);
    assert(body + block_bits(true) + end_bits() =~= body + final_bits());
    assert(ended =~= goal.subrange(0, ended.len() as int));
    assert(body =~= goal.subrange(0, body.len() as int));
    assert(body + block_bits(true) =~= goal.subrange(0, body.len() as int + 3));
    assert(body + final_bits() =~= goal.subrange(0, (body + final_bits()).len() as int));
}

/// The parts of a trailer.
proof fn lemma_trailer_parts(kind: Kind, ended: Seq<bool>, data: Seq<u8>, goal: Seq<bool>)
    requires
        goal == ended + word_bits(trailer_of(kind, data)),
        kind !is Detect,
    ensures
        ({
            let words = trailer_of(kind, data);
            match kind {
                Kind::Gzip => {
                    &&& (ended + number_bits(words[0] as nat, 32)).is_prefix_of(goal)
                    &&& (ended + number_bits(words[0] as nat, 32) + number_bits(words[1] as nat, 32))
                        .is_prefix_of(goal)
                    &&& ended + number_bits(words[0] as nat, 32) + number_bits(words[1] as nat, 32) == goal
                },
                Kind::Zlib => {
                    &&& (ended + number_bits(words[0] as nat, 32)).is_prefix_of(goal)
                    &&& ended + number_bits(words[0] as nat, 32) == goal
                },
                _ => ended == goal,
            }
        }),
{
    let words = trailer_of(kind, data);
    match kind {
        Kind::Gzip => {
            let one = words.drop_last();
            let (a, b) = (number_bits(words[0] as nat, 32), number_bits(words[1] as nat, 32));
            assert(word_bits(one.drop_last()) =~= Seq::<bool>::empty());
            assert(word_bits(one) =~= a);
            assert(goal =~= ended + a + b);
            assert(goal =~= goal.subrange(0, goal.len() as int));
            assert(ended + a =~= goal.subrange(0, ended.len() as int + 32));
        },
        Kind::Zlib => {
            let a = number_bits(words[0] as nat, 32);
            assert(word_bits(words.drop_last()) =~= Seq::<bool>::empty());
            assert(goal =~= ended + a);
            assert(goal =~= goal.subrange(0, goal.len() as int));
        },
        _ => {
            assert(goal =~= ended);
        },
    }
}

/// A chunk more.
proof fn lemma_chunk_more(kind: Kind, entries: nat, chunks: Seq<Seq<u8>>, chunk: Seq<u8>)
    ensures
        ({
            let more = chunks.push(chunk);
            let body = body_bits(kind, entries, chunks);
            &&& body_bits(kind, entries, more) == body + chunk_bits(entries, chunk)
            &&& body.is_prefix_of(body_bits(kind, entries, more))
            &&& body_bits(kind, entries, more).is_prefix_of(body_bits(kind, entries, more))
            &&& joined(more) == joined(chunks) + chunk
        }),
{
    let more = chunks.push(chunk);
    let body = body_bits(kind, entries, chunks);
    assert(more.drop_last() =~= chunks);
    assert(body_bits(kind, entries, more) =~= body + chunk_bits(entries, chunk));
    assert(body =~= body_bits(kind, entries, more).subrange(0, body.len() as int));
}

proof fn lemma_underway_blank<O: Output>(writer: Writer, out: O)
    requires
        writer.sound(),
        writer.bits@ == Seq::<bool>::empty(),
        out.sound(),
    ensures
        underway(blank(), out, writer, out),
{
    lemma_underway_nothing(writer, out);
}

/// What is written only adds to the output.
proof fn lemma_underway_grows<O: Output>(a: Writer, oa: O, b: Writer, ob: O)
    requires
        underway(a, oa, b, ob),
    ensures
        oa.history().is_prefix_of(ob.history()),
{
    assert(oa.history() =~= ob.history().subrange(0, oa.history().len() as int));
}

/// Everything that was written since the start got to the output.
proof fn lemma_underway_sent<O: Output>(oa: O, b: Writer, ob: O)
    requires
        underway(blank(), oa, b, ob),
    ensures
        sent(oa, ob, b.bits@, Ok(())),
{
    assert(packed(Seq::<bool>::empty()) =~= Seq::<u8>::empty());
    assert(fresh_bytes(blank().bits@, b.bits@) =~= packed(b.bits@));
    assert(oa.history() + Seq::<u8>::empty() =~= oa.history());
}

proof fn lemma_snapped_sent<O: Output>(oa: O, ob: O, goal: Seq<bool>, error: Error)
    requires
        snapped(blank(), oa, ob, goal, error),
    ensures
        sent(oa, ob, goal, Err(error)),
        oa.history().is_prefix_of(ob.history()),
{
    assert(packed(Seq::<bool>::empty()) =~= Seq::<u8>::empty());
    assert(fresh_bytes(blank().bits@, goal) =~= packed(goal));
    let full = poured(oa.terms(), oa.history(), packed(goal));
    assert(oa.history() =~= full.subrange(0, oa.history().len() as int));
}

/// The stream starts with what its chunks make.
pub proof fn lemma_stream_starts(kind: Kind, entries: nat, chunks: Seq<Seq<u8>>)
    ensures
        body_bits(kind, entries, chunks).is_prefix_of(stream_bits(kind, entries, chunks)),
{
    let body = body_bits(kind, entries, chunks);
    assert(body =~= stream_bits(kind, entries, chunks).subrange(0, body.len() as int));
}

/// What fails fails the same when there is more to come.
pub proof fn lemma_sent_more<O: Output>(oa: O, ob: O, bits: Seq<bool>, longer: Seq<bool>, error: Error)
    requires
        sent(oa, ob, bits, Err(error)),
        bits.is_prefix_of(longer),
    ensures
        sent(oa, ob, longer, Err(error)),
{
    lemma_packed_prefix(bits, longer);
    let (terms, h) = (oa.terms(), oa.history());
    let (some, all) = (packed(bits), packed(longer));
    let (a, b) = (poured(terms, h, some), poured(terms, h, all));
    assert(a.is_prefix_of(b)) by {
        if put_fault(terms, h) is None && some.len() > 0 {
            if h.len() + some.len() > terms.most {
                let n = terms.most - h.len();
                assert(some.take(n) =~= all.take(n)) by {
                    assert forall|i: int| 0 <= i < n implies some[i] == all[i] by {
                        assert(all.subrange(0, some.len() as int)[i] == some[i]);
                    }
                }
                assert(a =~= b);
            }
            assert(a =~= b.subrange(0, a.len() as int)) by {
                assert forall|i: int| 0 <= i < a.len() implies a[i] == b[i] by {
                    if i >= h.len() {
                        assert(all.subrange(0, some.len() as int)[i - h.len()] == some[i - h.len()]);
                    }
                }
            }
        } else {
            assert(a =~= b.subrange(0, a.len() as int));
        }
    }
    if pour_fault(terms, h, some) is Some {
        assert(a =~= b) by {
            if put_fault(terms, h) is None {
                let n = terms.most - h.len();
                assert(some.take(n) =~= all.take(n)) by {
                    assert forall|i: int| 0 <= i < n implies some[i] == all[i] by {
                        assert(all.subrange(0, some.len() as int)[i] == some[i]);
                    }
                }
            }
        }
    }
    let got = ob.history();
    if got.is_prefix_of(a) {
        assert(got =~= b.subrange(0, got.len() as int));
    }
}

/// What comes of compressing data in one go, from the output as it was, `oa`,
/// to what it is then, `ob`.
pub open spec fn compressed<O: Output>(
    kind: Kind,
    entries: nat,
    data: Seq<u8>,
    oa: O,
    ob: O,
    r: Result<u64, Error>,
) -> bool {
    let bits = stream_bits(kind, entries, seq![data]);
    match r {
        Ok(len) => {
            &&& sent(oa, ob, bits, Ok(()))
            &&& len == packed(bits).len()
            // Everything was delivered.
            &&& ob.checked() == ob.history().len()
        },
        Err(error) => sent(oa, ob, bits, Err(error)),
    }
}

/// Compresses `data` in one go.
pub fn compress<O: Output, F: Format>(data: &[u8], table: &mut [u16], output: O) -> (r: Result<u64, Error>)
    requires
        output.sound(),
    ensures
        exists|ob: O| #[trigger] compressed(F::kind(), old(table)@.len(), data@, output, ob, r)
            && has_resolved(ob) && &*final(ob.place()) == &*final(output.place()),
        final(table)@.len() == old(table)@.len(),
{
    let ghost entries = table@.len();
    let mut compressor: Compressor<'_, O, F> = Compressor::new(output, table);
    let ghost chunks = Seq::<Seq<u8>>::empty().push(data@);
    proof {
        assert(chunks =~= seq![data@]);
    }
    let r: Result<(), Error> = compressor.write(data);
    if let Err(error) = r {
        proof {
            lemma_stream_starts(F::kind(), entries, chunks);
            lemma_sent_more(
                output,
                compressor.out,
                body_bits(F::kind(), entries, chunks),
                stream_bits(F::kind(), entries, chunks),
                error,
            );
            assert(compressed(F::kind(), entries, data@, output, compressor.out, Err(error)));
        }
        return Err(error);
    }
    let r: Result<u64, Error> = compressor.finish();
    assert(compressed(F::kind(), entries, data@, output, compressor.out, r));
    r
}

} // verus!
