//! The bit reader over the input, which headers, trailers and the deflate
//! stream are all read through.

use vstd::arithmetic::div_mod::lemma_fundamental_div_mod_converse;
use vstd::arithmetic::power2::{lemma2_to64, lemma_pow2_pos, lemma_pow2_strictly_increases, pow2};
use vstd::bits::{
    lemma_u32_low_bits_mask_is_mod, lemma_u32_shl_is_mul, lemma_u32_shr_is_div, low_bits_mask,
};
use vstd::prelude::*;

use crate::bits::{
    align, bit, bit_len, code, lemma_code_bound, lemma_code_prefix, lemma_number_bound,
    lemma_number_byte, lemma_number_prefix, lemma_number_split, number,
};
use crate::decoding::read;
use crate::error::Error;
use crate::huffman::{
    count, first_code, has_code, lemma_code_range, lemma_offset_total, lemma_place_bound,
    lemma_symbol_prefix, lemma_unused_negative, offset, place, symbol_at, symbol_from, unused,
    Found, Huffman, MAX_BITS,
};
use crate::input::{Input, INPUT_LIMIT};

verus! {

/// Why decoding stopped.
#[derive(Clone, Copy)]
pub enum Stop {
    /// The input failed.
    Input(Error),
    /// Something else did.
    Fail(Error),
}

impl Stop {
    /// The error.
    pub fn error(self) -> (r: Error)
        ensures
            r == match self {
                Stop::Input(error) => error,
                Stop::Fail(error) => error,
            },
    {
        match self {
            Stop::Input(error) => error,
            Stop::Fail(error) => error,
        }
    }
}

/// The decoder's bit reader: the bits that were fetched and not read yet.
pub struct Inflate {
    pub bit_buf: u32,
    pub bit_cnt: u32,
    /// How many bytes may still be fetched, for decoding to end whatever the
    /// input.
    pub left: u128,
    /// The failure of the input, if there was one.
    pub status: Result<(), Error>,
    /// The bytes that were fetched from the input so far.
    pub taken: Ghost<Seq<u8>>,
    /// How many zeros stand for bytes that are missing, the input having
    /// failed.
    pub zeros: Ghost<nat>,
}

/// What reading from `a` to `b` takes from the input, `ia` to `ib`.
pub open spec fn moved<I: Input>(a: Inflate, ia: I, b: Inflate, ib: I) -> bool {
    &&& b.sound()
    &&& ib.ready()
    &&& a.pos() <= b.pos()
    &&& a.taken@.is_prefix_of(b.taken@)
    &&& ia.yields(b.taken@.skip(a.taken@.len() as int), ib)
    // Nothing is fetched before it is needed.
    &&& b.bit_cnt < 8 || (b.taken@ == a.taken@ && b.bit_cnt <= a.bit_cnt)
    &&& a.left - b.left == b.taken@.len() - a.taken@.len()
}

/// What reading takes from an input that fails with `error`.
pub open spec fn starved<I: Input>(a: Inflate, ia: I, b: Inflate, ib: I, error: Error) -> bool {
    &&& b.steady()
    &&& b.status == Err::<(), Error>(error)
    &&& ib.ready()
    &&& a.taken@.is_prefix_of(b.taken@)
    &&& a.left - b.left == b.taken@.len() - a.taken@.len()
    &&& {
        ||| exists|i: I|
            #![trigger i.fails(error, ib)]
            ia.yields(b.taken@.skip(a.taken@.len() as int), i) && i.fails(error, ib)
        ||| {
            &&& b.left == 0
            &&& error == Error::UnexpectedEof
            &&& ia.yields(b.taken@.skip(a.taken@.len() as int), ib)
        }
    }
}

pub proof fn lemma_moved_nothing<I: Input>(a: Inflate, ia: I)
    requires
        a.sound(),
        ia.ready(),
    ensures
        moved(a, ia, a, ia),
{
    ia.yields_nothing();
    assert(a.taken@.skip(a.taken@.len() as int) =~= Seq::<u8>::empty());
}

pub proof fn lemma_moved_joined<I: Input>(a: Inflate, ia: I, b: Inflate, ib: I, c: Inflate, ic: I)
    requires
        moved(a, ia, b, ib),
        moved(b, ib, c, ic),
    ensures
        moved(a, ia, c, ic),
{
    let n = a.taken@.len() as int;
    ia.yields_joined(b.taken@.skip(n), ib, c.taken@.skip(b.taken@.len() as int), ic);
    assert(c.taken@.skip(n) =~= b.taken@.skip(n) + c.taken@.skip(b.taken@.len() as int));
    assert(a.taken@.is_prefix_of(c.taken@)) by {
        assert(a.taken@ =~= c.taken@.subrange(0, n));
    }
}

pub proof fn lemma_starved_joined<I: Input>(
    a: Inflate,
    ia: I,
    b: Inflate,
    ib: I,
    c: Inflate,
    ic: I,
    error: Error,
)
    requires
        moved(a, ia, b, ib),
        starved(b, ib, c, ic, error),
    ensures
        starved(a, ia, c, ic, error),
{
    let n = a.taken@.len() as int;
    let run = c.taken@.skip(b.taken@.len() as int);
    if exists|i: I| #![trigger i.fails(error, ic)] ib.yields(run, i) && i.fails(error, ic) {
        let i = choose|i: I| #![trigger i.fails(error, ic)] ib.yields(run, i) && i.fails(error, ic);
        ia.yields_joined(b.taken@.skip(n), ib, run, i);
    } else {
        ia.yields_joined(b.taken@.skip(n), ib, run, ic);
    }
    assert(c.taken@.skip(n) =~= b.taken@.skip(n) + c.taken@.skip(b.taken@.len() as int));
    assert(a.taken@.is_prefix_of(c.taken@)) by {
        assert(a.taken@ =~= c.taken@.subrange(0, n));
    }
}

/// A byte goes on top of the bits that are there.
proof fn lemma_fetch(buf: u32, cnt: u32, byte: u8)
    requires
        cnt <= 24,
        buf < pow2(cnt as nat),
    ensures
        buf | ((byte as u32) << cnt) == buf + pow2(cnt as nat) * byte,
        buf + pow2(cnt as nat) * byte <= u32::MAX,
{
    let wide = byte as u32;
    lemma_pow2_pos(cnt as nat);
    assert(pow2(cnt as nat) <= 0x100_0000) by {
        lemma2_to64();
        if cnt < 24 {
            lemma_pow2_strictly_increases(cnt as nat, 24);
        }
    }
    assert(wide * pow2(cnt as nat) <= 255 * 0x100_0000) by (nonlinear_arith)
        requires
            wide <= 255,
            pow2(cnt as nat) <= 0x100_0000,
    ;
    lemma_u32_shl_is_mul(wide, cnt);
    lemma_u32_shl_is_mul(1, cnt);
    assert(buf | (wide << cnt) == buf + (wide << cnt)) by (bit_vector)
        requires
            cnt <= 24u32,
            buf < (1u32 << cnt),
            wide < 256u32,
    ;
    assert(wide * pow2(cnt as nat) == pow2(cnt as nat) * byte) by (nonlinear_arith)
        requires
            wide == byte,
    ;
}

/// Some bits go, the others stay.
proof fn lemma_drop_bits(buf: u32, n: u32, low: nat, high: nat)
    requires
        n <= 16,
        low < pow2(n as nat),
        buf == low + pow2(n as nat) * high,
    ensures
        buf >> n == high,
        buf & ((1u32 << n) - 1) as u32 == low,
        1u32 << n >= 1,
{
    lemma_pow2_pos(n as nat);
    lemma_u32_shr_is_div(buf, n);
    lemma_u32_low_bits_mask_is_mod(buf, n as nat);
    assert(pow2(n as nat) <= 65536) by {
        lemma2_to64();
        if n < 16 {
            lemma_pow2_strictly_increases(n as nat, 16);
        }
    }
    lemma_u32_shl_is_mul(1, n);
    assert(low_bits_mask(n as nat) == pow2(n as nat) - 1);
    assert(buf == high * pow2(n as nat) + low) by (nonlinear_arith)
        requires
            buf == low + pow2(n as nat) * high,
    ;
    lemma_fundamental_div_mod_converse(buf as int, pow2(n as nat) as int, high as int, low as int);
}

/// A number of one bit is that bit.
proof fn lemma_one_bit(data: Seq<u8>, pos: int)
    ensures
        number(data, pos, 1) == bit(data, pos),
{
    assert(number(data, pos + 1, 0) == 0);
}

proof fn lemma_code_kept(data: Seq<u8>, longer: Seq<u8>, pos: int, n: nat)
    requires
        data.is_prefix_of(longer),
        0 <= pos,
        pos + n <= bit_len(data),
    ensures
        code(longer, pos, n) == code(data, pos, n),
{
    assert(longer =~= data + longer.skip(data.len() as int));
    lemma_code_prefix(data, longer.skip(data.len() as int), pos, n);
}

/// There are as many codes as symbols that have one, with any length up to
/// the longest, when there are with the longest.
proof fn lemma_enough_codes(lengths: Seq<u8>, n: nat)
    requires
        1 <= n <= 15,
        unused(lengths, 15) >= 0,
    ensures
        first_code(lengths, n) + count(lengths, n as int) <= pow2(n) <= 32768,
{
    if unused(lengths, n) < 0 {
        lemma_unused_negative(lengths, n, 15);
    }
    lemma2_to64();
    if n < 15 {
        lemma_pow2_strictly_increases(n, 15);
    }
}

/// `longer` goes on from `data`: what can be read there is still the same.
pub open spec fn goes_on(data: Seq<u8>, longer: Seq<u8>) -> bool {
    &&& data.is_prefix_of(longer)
    &&& forall|pos: int, n: nat|
        0 <= pos && read(data, pos, n) is Some ==> #[trigger] read(longer, pos, n) == read(data, pos, n)
    &&& forall|lengths: Seq<u8>, pos: int|
        0 <= pos && symbol_at(lengths, data, pos) !is Short ==> #[trigger] symbol_at(lengths, longer, pos)
            == symbol_at(lengths, data, pos)
}

pub proof fn lemma_goes_on(data: Seq<u8>, longer: Seq<u8>)
    requires
        data.is_prefix_of(longer),
    ensures
        goes_on(data, longer),
{
    let rest = longer.skip(data.len() as int);
    assert(longer =~= data + rest);
    assert forall|pos: int, n: nat| 0 <= pos && read(data, pos, n) is Some implies #[trigger] read(
        longer,
        pos,
        n,
    ) == read(data, pos, n) by {
        lemma_number_prefix(data, rest, pos, n);
    }
    assert forall|lengths: Seq<u8>, pos: int| 0 <= pos && symbol_at(lengths, data, pos) !is Short implies
        #[trigger] symbol_at(lengths, longer, pos) == symbol_at(lengths, data, pos) by {
        lemma_symbol_prefix(lengths, data, rest, pos, 1);
    }
}

impl Inflate {
    /// The position of the next bit.
    pub open spec fn pos(self) -> int {
        bit_len(self.taken@) - self.bit_cnt
    }

    /// The bits that were fetched and not read are the next ones.
    pub open spec fn sound(self) -> bool {
        &&& self.bit_cnt <= 32
        &&& 0 <= self.pos()
        &&& self.bit_buf == number(self.taken@, self.pos(), self.bit_cnt as nat)
        &&& self.status is Ok
        &&& self.zeros@ == 0
    }

    /// What there is to read so far: the bytes that were fetched, then zeros.
    pub open spec fn data(self) -> Seq<u8> {
        self.taken@ + Seq::new(self.zeros@, |i: int| 0u8)
    }

    /// The position of the next bit, among the zeros or before them.
    pub open spec fn next(self) -> int {
        bit_len(self.data()) - self.bit_cnt
    }

    /// The same of a reader whose input may have failed.
    pub open spec fn steady(self) -> bool {
        &&& self.bit_cnt <= 32
        &&& 0 <= self.next()
        &&& self.bit_buf == number(self.data(), self.next(), self.bit_cnt as nat)
        &&& self.status is Ok ==> self.zeros@ == 0
    }

    /// The input of a reader that is in order has not failed.
    pub proof fn lemma_steady(self)
        ensures
            self.sound() == (self.steady() && self.status is Ok),
            self.zeros@ == 0 ==> self.data() == self.taken@ && self.next() == self.pos(),
    {
        if self.zeros@ == 0 {
            assert(self.data() =~= self.taken@);
        }
    }

    /// A reader of an input that nothing was fetched from yet.
    pub fn new() -> (r: Self)
        ensures
            r.sound(),
            r.taken@ == Seq::<u8>::empty(),
            r.pos() == 0,
            r.bit_cnt == 0,
            r.left == INPUT_LIMIT,
    {
        Inflate {
            bit_buf: 0,
            bit_cnt: 0,
            left: INPUT_LIMIT,
            status: Ok(()),
            taken: Ghost(Seq::empty()),
            zeros: Ghost(0),
        }
    }

    /// Takes a byte in, on top of the bits that were not read yet.
    pub fn stuff(&mut self, byte: u8)
        requires
            old(self).sound(),
            old(self).bit_cnt <= 24,
        ensures
            final(self).sound(),
            final(self).taken@ == old(self).taken@.push(byte),
            final(self).bit_cnt == old(self).bit_cnt + 8,
            final(self).pos() == old(self).pos(),
            final(self).left == old(self).left,
    {
        let ghost longer = self.taken@.push(byte);
        proof {
            lemma_number_bound(self.taken@, self.pos(), self.bit_cnt as nat);
            lemma_fetch(self.bit_buf, self.bit_cnt, byte);
            assert(longer =~= self.taken@ + seq![byte]);
            lemma_number_prefix(self.taken@, seq![byte], self.pos(), self.bit_cnt as nat);
            lemma_number_split(longer, self.pos(), self.bit_cnt as nat, 8);
            lemma_number_byte(longer, self.taken@.len() as int);
        }
        self.bit_buf = self.bit_buf | ((byte as u32) << self.bit_cnt);
        self.bit_cnt = self.bit_cnt + 8;
        self.taken = Ghost(longer);
    }

    /// Takes in all that is left of `input`, which has to fit.
    pub fn set_aside(&mut self, input: &mut &[u8])
        requires
            old(self).sound(),
            old(self).bit_cnt + 8 * old(input)@.len() <= 32,
        ensures
            final(self).sound(),
            final(self).taken@ == old(self).taken@ + old(input)@,
            final(self).pos() == old(self).pos(),
            final(self).left == old(self).left,
            final(input)@.len() == 0,
    {
        while input.len() > 0
            invariant
                self.sound(),
                self.bit_cnt + 8 * input@.len() <= 32,
                self.taken@ + input@ == old(self).taken@ + old(input)@,
                self.pos() == old(self).pos(),
                self.left == old(self).left,
            decreases input@.len(),
        {
            let data: &[u8] = *input;
            let ghost before = self.taken@;
            self.stuff(data[0]);
            *input = vstd::slice::slice_subrange(data, 1, data.len());
            assert(self.taken@ + input@ =~= before + data@);
        }
        assert(self.taken@ =~= self.taken@ + input@);
    }

    /// Makes up for a byte that is missing.
    fn pad(&mut self)
        requires
            old(self).steady(),
            old(self).status is Err,
            old(self).bit_cnt <= 24,
        ensures
            *final(self) == (Inflate {
                bit_cnt: (old(self).bit_cnt + 8) as u32,
                zeros: Ghost(old(self).zeros@ + 1),
                ..*old(self)
            }),
            final(self).steady(),
            final(self).next() == old(self).next(),
            old(self).data().is_prefix_of(final(self).data()),
    {
        let ghost data = self.data();
        self.bit_cnt = self.bit_cnt + 8;
        self.zeros = Ghost(self.zeros@ + 1);
        proof {
            let (pos, cnt) = (old(self).next(), old(self).bit_cnt as nat);
            let longer = self.data();
            assert(longer =~= data + seq![0u8]);
            lemma_number_prefix(data, seq![0u8], pos, cnt);
            lemma_number_split(longer, pos, cnt, 8);
            lemma_number_byte(longer, data.len() as int);
            assert(pow2(cnt) * 0 == 0);
        }
    }

    /// Reads `need` bits, at most 16, least significant first.
    ///
    /// This cannot fail: once the input has, it is not asked again, `status`
    /// holds its error, and zeros are read.
    pub fn bits<I: Input>(&mut self, input: &mut I, need: u32) -> (r: u16)
        requires
            old(self).steady(),
            (*old(input)).ready(),
            need <= 16,
        ensures
            &*final((*final(input)).place()) == &*final((*old(input)).place()),
            final(self).steady(),
            old(self).data().is_prefix_of(final(self).data()),
            final(self).next() == old(self).next() + need,
            r == number(final(self).data(), old(self).next(), need as nat),
            // Nothing is fetched, nor made up, before it is needed.
            final(self).bit_cnt < 8 || final(self).data() == old(self).data(),
            match (old(self).status, final(self).status) {
                (Ok(_), Ok(_)) => moved(*old(self), *old(input), *final(self), *final(input)),
                (Ok(_), Err(error)) => {
                    &&& starved(*old(self), *old(input), *final(self), *final(input), error)
                    &&& bit_len(final(self).taken@) < old(self).next() + need
                },
                (Err(_), _) => {
                    &&& final(self).status == old(self).status
                    &&& final(self).taken@ == old(self).taken@
                    &&& final(self).left == old(self).left
                    &&& *final(input) == *old(input)
                },
            },
    {
        proof {
            (*input).yields_nothing();
            self.lemma_steady();
            assert(self.taken@.skip(self.taken@.len() as int) =~= Seq::<u8>::empty());
        }
        while self.bit_cnt < need
            invariant
                &*final((*input).place()) == &*final((*old(input)).place()),
                self.steady(),
                (*input).ready(),
                need <= 16,
                self.next() == old(self).next(),
                old(self).data().is_prefix_of(self.data()),
                self.data() == old(self).data() || self.bit_cnt < need + 8,
                match old(self).status {
                    Ok(_) => {
                        &&& old(self).zeros@ == 0
                        &&& old(self).taken@.is_prefix_of(self.taken@)
                        &&& old(self).left - self.left == self.taken@.len() - old(self).taken@.len()
                        &&& match self.status {
                            Ok(_) => (*old(input)).yields(
                                self.taken@.skip(old(self).taken@.len() as int),
                                *input,
                            ),
                            Err(error) => {
                                &&& starved(*old(self), *old(input), *self, *input, error)
                                &&& bit_len(self.taken@) < old(self).next() + need
                            },
                        }
                    },
                    Err(_) => {
                        &&& self.status == old(self).status
                        &&& self.taken@ == old(self).taken@
                        &&& self.left == old(self).left
                        &&& *input == *old(input)
                    },
                },
            decreases need + 8 - self.bit_cnt,
        {
            let ghost before = *self;
            let ghost source = *input;
            proof {
                self.lemma_steady();
            }
            if self.status.is_ok() {
                if self.left == 0 {
                    self.status = Err(Error::UnexpectedEof);
                } else {
                    match input.byte() {
                        Ok(byte) => {
                            self.left = self.left - 1;
                            self.stuff(byte);
                            proof {
                                let n = old(self).taken@.len() as int;
                                (*old(input)).yields_joined(before.taken@.skip(n), source, seq![byte], *input);
                                assert(self.taken@.skip(n) =~= before.taken@.skip(n) + seq![byte]);
                                assert(old(self).taken@ =~= self.taken@.subrange(0, n));
                            }
                        },
                        Err(error) => {
                            assert(source.fails(error, *input));
                            self.status = Err(error);
                        },
                    }
                }
            }
            if self.status.is_err() {
                self.pad();
            }
            proof {
                self.lemma_steady();
                assert(old(self).data() =~= self.data().subrange(0, old(self).data().len() as int));
            }
        }
        let ghost full = *self;
        proof {
            let rest = (self.bit_cnt - need) as nat;
            lemma_number_split(self.data(), self.next(), need as nat, rest);
            lemma_number_bound(self.data(), self.next(), need as nat);
            lemma_drop_bits(
                self.bit_buf,
                need,
                number(self.data(), self.next(), need as nat),
                number(self.data(), self.next() + need, rest),
            );
            assert(pow2(need as nat) <= 65536) by {
                lemma2_to64();
                if need < 16 {
                    lemma_pow2_strictly_increases(need as nat, 16);
                }
            }
        }
        let value: u32 = self.bit_buf & ((1u32 << need) - 1);
        self.bit_buf = self.bit_buf >> need;
        self.bit_cnt = self.bit_cnt - need;
        proof {
            assert(self.data() == full.data());
            self.lemma_steady();
        }
        value as u16
    }

    /// Reads `need` bits, unless the input fails.
    fn some_bits<I: Input>(&mut self, input: &mut I, need: u32) -> (r: Result<u16, Stop>)
        requires
            old(self).sound(),
            (*old(input)).ready(),
            need <= 16,
        ensures
            &*final((*final(input)).place()) == &*final((*old(input)).place()),
            match r {
                Ok(value) => {
                    &&& moved(*old(self), *old(input), *final(self), *final(input))
                    &&& final(self).pos() == old(self).pos() + need
                    &&& value == number(final(self).taken@, old(self).pos(), need as nat)
                },
                Err(Stop::Input(error)) => {
                    &&& starved(*old(self), *old(input), *final(self), *final(input), error)
                    &&& bit_len(final(self).taken@) < old(self).pos() + need
                },
                Err(Stop::Fail(_)) => false,
            },
    {
        proof {
            self.lemma_steady();
        }
        let value: u16 = self.bits(input, need);
        proof {
            self.lemma_steady();
        }
        match self.status {
            Ok(()) => Ok(value),
            Err(error) => Err(Stop::Input(error)),
        }
    }

    /// Skips to the next byte boundary.
    pub fn align(&mut self)
        requires
            old(self).sound(),
        ensures
            final(self).sound(),
            final(self).taken@ == old(self).taken@,
            final(self).pos() == align(old(self).pos()),
            final(self).bit_cnt <= old(self).bit_cnt,
            final(self).bit_cnt % 8 == 0,
            old(self).bit_cnt < 8 ==> final(self).bit_cnt == 0,
            final(self).left == old(self).left,
    {
        let drop: u32 = self.bit_cnt % 8;
        proof {
            let rest = (self.bit_cnt - drop) as nat;
            lemma_number_split(self.taken@, self.pos(), drop as nat, rest);
            lemma_number_bound(self.taken@, self.pos(), drop as nat);
            lemma_drop_bits(
                self.bit_buf,
                drop,
                number(self.taken@, self.pos(), drop as nat),
                number(self.taken@, self.pos() + drop, rest),
            );
        }
        self.bit_buf = self.bit_buf >> drop;
        self.bit_cnt = self.bit_cnt - drop;
    }

    /// Reads a symbol of `table`, one bit at a time.
    pub fn decode<const N: usize, I: Input>(
        &mut self,
        input: &mut I,
        table: &Huffman<N>,
        Ghost(lengths): Ghost<Seq<u8>>,
    ) -> (r: Result<u16, Stop>)
        requires
            old(self).sound(),
            (*old(input)).ready(),
            table.is(lengths),
            unused(lengths, 15) >= 0,
        ensures
            &*final((*final(input)).place()) == &*final((*old(input)).place()),
            match r {
                Ok(symbol) => {
                    &&& moved(*old(self), *old(input), *final(self), *final(input))
                    &&& old(self).pos() < final(self).pos()
                    &&& symbol_at(lengths, final(self).taken@, old(self).pos()) == Found::Symbol(
                        symbol as int,
                        (final(self).pos() - old(self).pos()) as nat,
                    )
                },
                Err(Stop::Input(error)) => {
                    &&& starved(*old(self), *old(input), *final(self), *final(input), error)
                    &&& symbol_at(lengths, final(self).taken@, old(self).pos()) is Short
                },
                Err(Stop::Fail(error)) => {
                    &&& error == Error::InvalidCode
                    &&& moved(*old(self), *old(input), *final(self), *final(input))
                    &&& final(self).pos() == old(self).pos() + MAX_BITS
                    &&& symbol_at(lengths, final(self).taken@, old(self).pos()) is Nothing
                },
            },
    {
        let ghost start = self.pos();
        let mut bits: i32 = 0;
        let mut first: i32 = 0;
        let mut index: i32 = 0;
        let mut len: usize = 1;
        proof {
            lemma_moved_nothing(*self, *input);
        }
        while len <= MAX_BITS
            invariant
                &*final((*input).place()) == &*final((*old(input)).place()),
                1 <= len <= 16,
                table.is(lengths),
                unused(lengths, 15) >= 0,
                moved(*old(self), *old(input), *self, *input),
                start == old(self).pos(),
                0 <= start,
                self.pos() == start + len - 1,
                bits == 2 * code(self.taken@, start, (len - 1) as nat),
                first == first_code(lengths, len as nat),
                index == offset(lengths, len as nat),
                first <= bits <= 65536,
                index <= 320,
                forall|d: Seq<u8>|
                    self.taken@.is_prefix_of(d) ==> #[trigger] symbol_from(lengths, d, start, 1)
                        == symbol_from(lengths, d, start, len as nat),
            decreases 16 - len,
        {
            let ghost before = *self;
            let ghost source = *input;
            let bit: u16 = match self.some_bits(input, 1) {
                Ok(bit) => bit,
                Err(stop) => {
                    proof {
                        if let Stop::Input(error) = stop {
                            lemma_starved_joined(*old(self), *old(input), before, source, *self, *input, error);
                        }
                    }
                    return Err(stop);
                },
            };
            let ghost n = len as nat;
            let ghost data = self.taken@;
            proof {
                lemma_moved_joined(*old(self), *old(input), before, source, *self, *input);
                lemma_one_bit(data, before.pos());
                lemma_code_kept(before.taken@, data, start, (len - 1) as nat);
                lemma_code_bound(data, start, n);
                lemma_enough_codes(lengths, n);
                lemma_code_range(lengths, n, code(data, start, n));
                assert(table.count@[len as int] == count(lengths, len as int));
                assert forall|d: Seq<u8>| data.is_prefix_of(d) implies #[trigger] symbol_from(
                    lengths,
                    d,
                    start,
                    1,
                ) == symbol_from(lengths, d, start, n) && code(d, start, n) == code(data, start, n)
                    && start + n <= bit_len(d) by {
                    assert(before.taken@ =~= d.subrange(0, before.taken@.len() as int));
                    lemma_code_kept(data, d, start, n);
                }
            }
            let count: i32 = table.count[len] as i32;
            bits = bits + bit as i32;
            if bits - count < first {
                let ghost s = choose|s: int| has_code(lengths, s, n, code(data, start, n));
                proof {
                    assert(has_code(lengths, s, n, code(data, start, n)));
                    assert(lengths[s] == n);
                    lemma_place_bound(lengths, s);
                    assert(place(lengths, s) == index + bits - first);
                    assert(data.is_prefix_of(data));
                    assert(symbol_from(lengths, data, start, 1) == symbol_from(lengths, data, start, n));
                }
                return Ok(table.symbol[(index + bits - first) as usize]);
            }
            proof {
                lemma_offset_total(lengths, n + 1);
                assert forall|d: Seq<u8>| data.is_prefix_of(d) implies #[trigger] symbol_from(
                    lengths,
                    d,
                    start,
                    1,
                ) == symbol_from(lengths, d, start, n + 1) by {
                    assert(symbol_from(lengths, d, start, 1) == symbol_from(lengths, d, start, n));
                }
                assert((n + 1 - 1) as nat == n);
            }
            index = index + count;
            first = (first + count) * 2;
            bits = bits * 2;
            len += 1;
        }
        proof {
            assert(self.taken@.is_prefix_of(self.taken@));
            assert(symbol_from(lengths, self.taken@, start, 1) == symbol_from(lengths, self.taken@, start, 16));
        }
        Err(Stop::Fail(Error::InvalidCode))
    }

    /// Reads `need` bits, as `bits` does, in the course of something that
    /// started at `first`.
    pub fn next_bits<I: Input>(
        &mut self,
        input: &mut I,
        need: u32,
        Ghost(first): Ghost<(Inflate, I)>,
    ) -> (r: Result<u16, Stop>)
        requires
            moved(first.0, first.1, *old(self), *old(input)),
            need <= 16,
        ensures
            &*final((*final(input)).place()) == &*final((*old(input)).place()),
            goes_on(old(self).taken@, final(self).taken@),
            match r {
                Ok(value) => {
                    &&& moved(first.0, first.1, *final(self), *final(input))
                    &&& final(self).pos() == old(self).pos() + need
                    &&& read(final(self).taken@, old(self).pos(), need as nat) == Some(value as nat)
                    &&& value < pow2(need as nat)
                },
                Err(Stop::Input(error)) => {
                    &&& starved(first.0, first.1, *final(self), *final(input), error)
                    &&& read(final(self).taken@, old(self).pos(), need as nat) is None
                },
                Err(Stop::Fail(_)) => false,
            },
    {
        let r: Result<u16, Stop> = self.some_bits(input, need);
        proof {
            lemma_goes_on(old(self).taken@, self.taken@);
            lemma_number_bound(self.taken@, old(self).pos(), need as nat);
            match r {
                Ok(_) => {
                    lemma_moved_joined(first.0, first.1, *old(self), *old(input), *self, *input);
                },
                Err(Stop::Input(error)) => {
                    lemma_starved_joined(first.0, first.1, *old(self), *old(input), *self, *input, error);
                },
                Err(_) => {},
            }
        }
        r
    }
}

} // verus!
