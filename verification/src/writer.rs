//! The bit writer that headers, trailers and the deflate stream are all
//! written through.

use vstd::arithmetic::div_mod::{lemma_div_denominator, lemma_fundamental_div_mod};
use vstd::arithmetic::power2::{lemma2_to64, lemma_pow2_pos, lemma_pow2_unfold, pow2};
use vstd::bits::{lemma_u32_shl_is_mul, lemma_u32_shr_is_div};
use vstd::prelude::*;

use crate::decoding::{fixed_dist_code, fixed_len_code};
use crate::encoding::{
    bits_value, code_bits, dist_symbol, distance_bits, halvings, length_bits, length_symbol,
    number_bits, packed, symbol_bits,
};
use crate::error::Error;
use crate::output::{attempted, pour_fault, poured, put_fault, same_output, Output};
use crate::roundtrip::{lemma_dist_symbol, lemma_length_symbol};
use crate::spelling::{lemma_bits_value_bound, lemma_fixed_dist_codeword, lemma_fixed_len_codeword};

verus! {

/// The bits that do not make a byte yet.
pub struct Writer {
    pub bit_buf: u32,
    pub bit_cnt: u32,
    /// All the bits that were written so far.
    pub bits: Ghost<Seq<bool>>,
}

/// The bytes that writing `bits` makes, past those that `before` made.
pub open spec fn fresh_bytes(before: Seq<bool>, bits: Seq<bool>) -> Seq<u8> {
    packed(bits).skip(packed(before).len() as int)
}

/// Whether what was written since `a`, when the output was `oa`, all got to
/// the output.
pub open spec fn underway<O: Output>(a: Writer, oa: O, b: Writer, ob: O) -> bool {
    &&& b.sound()
    &&& a.bits@.is_prefix_of(b.bits@)
    &&& same_output(oa, ob)
    &&& ob.flushes() == oa.flushes()
    &&& pour_fault(oa.terms(), oa.history(), fresh_bytes(a.bits@, b.bits@)) is None
    &&& ob.history() == oa.history() + fresh_bytes(a.bits@, b.bits@)
}

/// What a failure on the way from `a` to all of `goal` leaves.
pub open spec fn snapped<O: Output>(a: Writer, oa: O, ob: O, goal: Seq<bool>, error: Error) -> bool {
    &&& same_output(oa, ob)
    &&& ob.flushes() == oa.flushes()
    &&& attempted(
        oa.history(),
        ob.history(),
        Err(error),
        poured(oa.terms(), oa.history(), fresh_bytes(a.bits@, goal)),
        pour_fault(oa.terms(), oa.history(), fresh_bytes(a.bits@, goal)),
        oa.faults(),
    )
}

pub proof fn lemma_bits_value_push(bits: Seq<bool>, b: bool)
    ensures
        bits_value(bits.push(b)) == bits_value(bits) + (if b {
            pow2(bits.len())
        } else {
            0
        }),
    decreases bits.len(),
{
    assert(pow2(0) == 1) by {
        lemma2_to64();
    }
    if bits.len() > 0 {
        lemma_bits_value_push(bits.skip(1), b);
        assert(bits.push(b).skip(1) =~= bits.skip(1).push(b));
        lemma_pow2_unfold(bits.len());
    } else {
        assert(bits.push(b).skip(1) =~= Seq::<bool>::empty());
        assert(bits_value(Seq::<bool>::empty()) == 0);
    }
}

/// More bits make the same bytes, and then some.
pub proof fn lemma_packed_prefix(bits: Seq<bool>, longer: Seq<bool>)
    requires
        bits.is_prefix_of(longer),
    ensures
        packed(bits).is_prefix_of(packed(longer)),
{
    assert forall|i: int| 0 <= i < packed(bits).len() implies packed(bits)[i] == packed(longer)[i] by {
        assert(bits.subrange(8 * i, 8 * i + 8) =~= longer.subrange(8 * i, 8 * i + 8));
    }
    assert(packed(bits) =~= packed(longer).subrange(0, packed(bits).len() as int));
}

/// Nothing was written yet.
pub proof fn lemma_underway_nothing<O: Output>(a: Writer, oa: O)
    requires
        a.sound(),
        oa.sound(),
    ensures
        underway(a, oa, a, oa),
{
    assert(fresh_bytes(a.bits@, a.bits@) =~= Seq::<u8>::empty());
    assert(oa.history() + Seq::<u8>::empty() =~= oa.history());
}

/// A byte more.
proof fn lemma_byte_more<O: Output>(
    a: Writer,
    oa: O,
    bits: Seq<bool>,
    ob: O,
    byte: u8,
    longer: Seq<bool>,
    goal: Seq<bool>,
    oc: O,
    r: Result<(), Error>,
)
    requires
        a.bits@.is_prefix_of(bits),
        bits.is_prefix_of(longer),
        longer.is_prefix_of(goal),
        packed(longer) == packed(bits).push(byte),
        same_output(oa, ob),
        same_output(ob, oc),
        ob.flushes() == oa.flushes(),
        oc.flushes() == ob.flushes(),
        pour_fault(oa.terms(), oa.history(), fresh_bytes(a.bits@, bits)) is None,
        ob.history() == oa.history() + fresh_bytes(a.bits@, bits),
        attempted(
            ob.history(),
            oc.history(),
            r,
            if put_fault(ob.terms(), ob.history()) is None {
                ob.history().push(byte)
            } else {
                ob.history()
            },
            put_fault(ob.terms(), ob.history()),
            ob.faults(),
        ),
    ensures
        match r {
            Ok(_) => {
                &&& pour_fault(oa.terms(), oa.history(), fresh_bytes(a.bits@, longer)) is None
                &&& oc.history() == oa.history() + fresh_bytes(a.bits@, longer)
            },
            Err(error) => snapped(a, oa, oc, goal, error),
        },
{
    let terms = oa.terms();
    let h = oa.history();
    let some = fresh_bytes(a.bits@, bits);
    let more = fresh_bytes(a.bits@, longer);
    let all = fresh_bytes(a.bits@, goal);
    lemma_packed_prefix(a.bits@, bits);
    lemma_packed_prefix(longer, goal);
    assert(more =~= some.push(byte));
    assert(more.is_prefix_of(all)) by {
        assert(more =~= all.subrange(0, more.len() as int)) by {
            assert forall|i: int| 0 <= i < more.len() implies more[i] == all[i] by {
                let k = i + packed(a.bits@).len();
                assert(packed(longer)[k] == packed(goal).subrange(0, packed(longer).len() as int)[k]);
            }
        }
    }
    assert(h + more =~= (h + some).push(byte));
    match r {
        Ok(_) => {},
        Err(error) => {
            let full = poured(terms, h, all);
            if put_fault(terms, ob.history()) is Some {
                assert(full =~= ob.history()) by {
                    if h.len() + all.len() > terms.most && put_fault(terms, h) is None {
                        assert(some =~= all.take(terms.most - h.len()));
                    }
                }
            } else {
                assert((h + more).is_prefix_of(full)) by {
                    if h.len() + all.len() > terms.most {
                        assert(more =~= all.take(terms.most - h.len()).subrange(0, more.len() as int));
                        assert(h + more =~= full.subrange(0, (h.len() + more.len()) as int));
                    } else {
                        assert(h + more =~= full.subrange(0, (h.len() + more.len()) as int));
                    }
                }
                let got = oc.history();
                if got.is_prefix_of(h + more) {
                    assert(got =~= full.subrange(0, got.len() as int));
                }
                if ob.history().is_prefix_of(got) {
                    assert(h =~= got.subrange(0, h.len() as int));
                }
            }
        },
    }
}

impl Writer {
    /// The bits that do not make a byte are the last ones.
    pub open spec fn sound(self) -> bool {
        let whole = self.bits@.len() as int / 8 * 8;
        &&& self.bit_cnt == self.bits@.len() % 8
        &&& self.bit_buf == bits_value(self.bits@.skip(whole))
    }

    /// A writer that nothing was written to yet.
    pub fn new() -> (r: Self)
        ensures
            r.sound(),
            r.bits@ == Seq::<bool>::empty(),
    {
        let w = Writer { bit_buf: 0, bit_cnt: 0, bits: Ghost(Seq::empty()) };
        assert(w.bits@.skip(0) =~= Seq::<bool>::empty());
        w
    }

    /// Writes a bit, in the course of something that started at `first` and
    /// gets to all of `goal`.
    pub fn bit<O: Output>(
        &mut self,
        out: &mut O,
        value: bool,
        Ghost(first): Ghost<(Writer, O)>,
        Ghost(goal): Ghost<Seq<bool>>,
    ) -> (r: Result<(), Error>)
        requires
            underway(first.0, first.1, *old(self), *old(out)),
            old(self).bits@.push(value).is_prefix_of(goal),
        ensures
            &*final((*final(out)).place()) == &*final((*old(out)).place()),
            match r {
                Ok(_) => {
                    &&& underway(first.0, first.1, *final(self), *final(out))
                    &&& final(self).bits@ == old(self).bits@.push(value)
                },
                Err(error) => snapped(first.0, first.1, *final(out), goal, error),
            },
    {
        let ghost bits = self.bits@;
        let ghost longer = bits.push(value);
        let ghost whole = bits.len() as int / 8 * 8;
        let ghost pending = bits.skip(whole);
        proof {
            lemma_bits_value_push(pending, value);
            lemma_bits_value_bound(pending);
            assert(longer.skip(whole) =~= pending.push(value));
            lemma_small_power(self.bit_cnt);
            assert(first.0.bits@ =~= longer.subrange(0, first.0.bits@.len() as int));
        }
        if value {
            self.bit_buf = self.bit_buf + (1u32 << self.bit_cnt);
        }
        self.bit_cnt = self.bit_cnt + 1;
        self.bits = Ghost(longer);
        if self.bit_cnt < 8 {
            proof {
                assert(packed(longer) =~= packed(bits)) by {
                    assert forall|i: int| 0 <= i < packed(bits).len() implies packed(longer)[i] == packed(
                        bits,
                    )[i] by {
                        assert(longer.subrange(8 * i, 8 * i + 8) =~= bits.subrange(8 * i, 8 * i + 8));
                    }
                }
            }
            return Ok(());
        }
        let byte: u8 = self.bit_buf as u8;
        let ghost before = *out;
        let mut nothing: () = ();
        let r: Result<(), Error> = out.put(byte, &mut nothing);
        self.bit_buf = 0;
        self.bit_cnt = 0;
        proof {
            assert(packed(longer) =~= packed(bits).push(byte)) by {
                assert forall|i: int| 0 <= i < packed(longer).len() implies packed(longer)[i] == packed(
                    bits,
                ).push(byte)[i] by {
                    if i < packed(bits).len() {
                        assert(longer.subrange(8 * i, 8 * i + 8) =~= bits.subrange(8 * i, 8 * i + 8));
                    } else {
                        assert(longer.subrange(8 * i, 8 * i + 8) =~= pending.push(value));
                    }
                }
            }
            assert(longer.skip(longer.len() as int) =~= Seq::<bool>::empty());
            lemma_byte_more(first.0, first.1, bits, before, byte, longer, goal, *out, r);
        }
        r
    }

    /// Writes the `n` low bits of a number, the least significant first.
    pub fn number<O: Output>(
        &mut self,
        out: &mut O,
        value: u32,
        n: u32,
        Ghost(first): Ghost<(Writer, O)>,
        Ghost(goal): Ghost<Seq<bool>>,
    ) -> (r: Result<(), Error>)
        requires
            underway(first.0, first.1, *old(self), *old(out)),
            n <= 32,
            (old(self).bits@ + number_bits(value as nat, n as nat)).is_prefix_of(goal),
        ensures
            &*final((*final(out)).place()) == &*final((*old(out)).place()),
            match r {
                Ok(_) => {
                    &&& underway(first.0, first.1, *final(self), *final(out))
                    &&& final(self).bits@ == old(self).bits@ + number_bits(value as nat, n as nat)
                },
                Err(error) => snapped(first.0, first.1, *final(out), goal, error),
            },
    {
        let ghost part = number_bits(value as nat, n as nat);
        let ghost start = self.bits@;
        let mut i: u32 = 0;
        assert(start =~= start + part.take(0));
        while i < n
            invariant
                &*final((*out).place()) == &*final((*old(out)).place()),
                i <= n <= 32,
                part == number_bits(value as nat, n as nat),
                underway(first.0, first.1, *self, *out),
                (start + part).is_prefix_of(goal),
                self.bits@ == start + part.take(i as int),
            decreases n - i,
        {
            proof {
                lemma_u32_shr_is_div(value, i);
                lemma_pow2_pos(i as nat);
                lemma_part_prefix(start, part, i as int, goal);
            }
            self.bit(out, (value >> i) % 2 == 1, Ghost(first), Ghost(goal))?;
            i += 1;
        }
        assert(part.take(n as int) =~= part);
        Ok(())
    }

    /// Writes a Huffman code of `n` bits, the most significant first.
    pub fn code<O: Output>(
        &mut self,
        out: &mut O,
        code: u32,
        n: u32,
        Ghost(first): Ghost<(Writer, O)>,
        Ghost(goal): Ghost<Seq<bool>>,
    ) -> (r: Result<(), Error>)
        requires
            underway(first.0, first.1, *old(self), *old(out)),
            n <= 32,
            (old(self).bits@ + code_bits(code as nat, n as nat)).is_prefix_of(goal),
        ensures
            &*final((*final(out)).place()) == &*final((*old(out)).place()),
            match r {
                Ok(_) => {
                    &&& underway(first.0, first.1, *final(self), *final(out))
                    &&& final(self).bits@ == old(self).bits@ + code_bits(code as nat, n as nat)
                },
                Err(error) => snapped(first.0, first.1, *final(out), goal, error),
            },
    {
        let ghost part = code_bits(code as nat, n as nat);
        let ghost start = self.bits@;
        let mut i: u32 = 0;
        assert(start =~= start + part.take(0));
        while i < n
            invariant
                &*final((*out).place()) == &*final((*old(out)).place()),
                i <= n <= 32,
                part == code_bits(code as nat, n as nat),
                underway(first.0, first.1, *self, *out),
                (start + part).is_prefix_of(goal),
                self.bits@ == start + part.take(i as int),
            decreases n - i,
        {
            let shift: u32 = n - 1 - i;
            proof {
                lemma_u32_shr_is_div(code, shift);
                lemma_pow2_pos(shift as nat);
                lemma_part_prefix(start, part, i as int, goal);
            }
            self.bit(out, (code >> shift) % 2 == 1, Ghost(first), Ghost(goal))?;
            i += 1;
        }
        assert(part.take(n as int) =~= part);
        Ok(())
    }

    /// Writes a literal/length symbol with the fixed code.
    pub fn symbol<O: Output>(
        &mut self,
        out: &mut O,
        symbol: u32,
        Ghost(first): Ghost<(Writer, O)>,
        Ghost(goal): Ghost<Seq<bool>>,
    ) -> (r: Result<(), Error>)
        requires
            underway(first.0, first.1, *old(self), *old(out)),
            symbol < 288,
            (old(self).bits@ + symbol_bits(fixed_len_code(), symbol as int)).is_prefix_of(goal),
        ensures
            &*final((*final(out)).place()) == &*final((*old(out)).place()),
            match r {
                Ok(_) => {
                    &&& underway(first.0, first.1, *final(self), *final(out))
                    &&& final(self).bits@ == old(self).bits@ + symbol_bits(fixed_len_code(), symbol as int)
                },
                Err(error) => snapped(first.0, first.1, *final(out), goal, error),
            },
    {
        proof {
            lemma_fixed_len_codeword(symbol as int);
        }
        if symbol < 144 {
            self.code(out, 48 + symbol, 8, Ghost(first), Ghost(goal))
        } else if symbol < 256 {
            self.code(out, 400 + (symbol - 144), 9, Ghost(first), Ghost(goal))
        } else if symbol < 280 {
            self.code(out, symbol - 256, 7, Ghost(first), Ghost(goal))
        } else {
            self.code(out, 192 + (symbol - 280), 8, Ghost(first), Ghost(goal))
        }
    }

    /// Writes the length of a match.
    pub fn length<O: Output>(
        &mut self,
        out: &mut O,
        len: u32,
        Ghost(first): Ghost<(Writer, O)>,
        Ghost(goal): Ghost<Seq<bool>>,
    ) -> (r: Result<(), Error>)
        requires
            underway(first.0, first.1, *old(self), *old(out)),
            3 <= len <= 258,
            (old(self).bits@ + length_bits(len as int)).is_prefix_of(goal),
        ensures
            &*final((*final(out)).place()) == &*final((*old(out)).place()),
            match r {
                Ok(_) => {
                    &&& underway(first.0, first.1, *final(self), *final(out))
                    &&& final(self).bits@ == old(self).bits@ + length_bits(len as int)
                },
                Err(error) => snapped(first.0, first.1, *final(out), goal, error),
            },
    {
        if len == 258 {
            return self.symbol(out, 285, Ghost(first), Ghost(goal));
        }
        // Four symbols for each count of extra bits, except at both ends.
        let l: u32 = len - 3;
        let (extra, high): (u32, u32) = halve(l, 8);
        proof {
            lemma_length_symbol(len as int);
            lemma_pow2_pos(extra as nat);
            lemma_low_bits(l, extra, high);
            let a = symbol_bits(fixed_len_code(), 257 + length_symbol(len as int));
            let b = number_bits((l - high * pow2(extra as nat)) as nat, extra as nat);
            assert(length_bits(len as int) == a + b);
            lemma_parts_prefix(self.bits@, a, b, goal);
        }
        self.symbol(out, 257 + 4 * extra + high, Ghost(first), Ghost(goal))?;
        self.number(out, l - (high << extra), extra, Ghost(first), Ghost(goal))
    }

    /// Writes the distance of a match.
    pub fn distance<O: Output>(
        &mut self,
        out: &mut O,
        dist: u32,
        Ghost(first): Ghost<(Writer, O)>,
        Ghost(goal): Ghost<Seq<bool>>,
    ) -> (r: Result<(), Error>)
        requires
            underway(first.0, first.1, *old(self), *old(out)),
            1 <= dist <= 32768,
            (old(self).bits@ + distance_bits(dist as int)).is_prefix_of(goal),
        ensures
            &*final((*final(out)).place()) == &*final((*old(out)).place()),
            match r {
                Ok(_) => {
                    &&& underway(first.0, first.1, *final(self), *final(out))
                    &&& final(self).bits@ == old(self).bits@ + distance_bits(dist as int)
                },
                Err(error) => snapped(first.0, first.1, *final(out), goal, error),
            },
    {
        // Two symbols for each count of extra bits.
        let d: u32 = dist - 1;
        let (extra, high): (u32, u32) = halve(d, 4);
        proof {
            lemma_dist_symbol(dist as int);
            lemma_pow2_pos(extra as nat);
            lemma_low_bits(d, extra, high);
            lemma_fixed_dist_codeword(dist_symbol(dist as int));
            let a = symbol_bits(fixed_dist_code(), dist_symbol(dist as int));
            let b = number_bits((d - high * pow2(extra as nat)) as nat, extra as nat);
            assert(distance_bits(dist as int) == a + b);
            lemma_parts_prefix(self.bits@, a, b, goal);
        }
        self.code(out, 2 * extra + high, 5, Ghost(first), Ghost(goal))?;
        self.number(out, d - (high << extra), extra, Ghost(first), Ghost(goal))
    }
}

/// Halves `l` until it gets below `limit`. Returns how many times, and what is
/// left.
fn halve(l: u32, limit: u32) -> (r: (u32, u32))
    requires
        limit == 4 || limit == 8,
    ensures
        r.0 == halvings(l as nat, limit as nat),
        r.1 == l as nat / pow2(r.0 as nat),
        r.0 < 32,
{
    let mut extra: u32 = 0;
    let mut high: u32 = l;
    assert(pow2(0) == 1) by {
        lemma2_to64();
    }
    assert(l as nat / 1 == l as nat);
    assert(high < pow2(32)) by {
        lemma2_to64();
    }
    while high >= limit
        invariant
            limit == 4 || limit == 8,
            extra <= 31,
            high < pow2((32 - extra) as nat),
            high == l as nat / pow2(extra as nat),
            extra + halvings(high as nat, limit as nat) == halvings(l as nat, limit as nat),
        decreases high,
    {
        proof {
            lemma_pow2_pos(extra as nat);
            lemma_pow2_unfold((extra + 1) as nat);
            lemma_pow2_unfold((32 - extra) as nat);
            lemma_div_denominator(l as int, pow2(extra as nat) as int, 2);
            assert(pow2(1) == 2) by {
                lemma2_to64();
            }
        }
        high = high / 2;
        extra += 1;
    }
    (extra, high)
}

/// What is below the high bits of a number.
proof fn lemma_low_bits(l: u32, extra: u32, high: u32)
    requires
        extra < 32,
        high == l as nat / pow2(extra as nat),
    ensures
        high << extra == high * pow2(extra as nat),
        high * pow2(extra as nat) <= l,
        l - high * pow2(extra as nat) == l as nat % pow2(extra as nat),
{
    lemma_pow2_pos(extra as nat);
    lemma_fundamental_div_mod(l as int, pow2(extra as nat) as int);
    assert(pow2(extra as nat) * high == high * pow2(extra as nat)) by (nonlinear_arith);
    lemma_u32_shl_is_mul(high, extra);
}

/// What starts with all of a part starts with each bit of it.
pub proof fn lemma_part_prefix(start: Seq<bool>, part: Seq<bool>, i: int, goal: Seq<bool>)
    requires
        0 <= i < part.len(),
        (start + part).is_prefix_of(goal),
    ensures
        (start + part.take(i)).push(part[i]).is_prefix_of(goal),
        (start + part.take(i)).push(part[i]) == start + part.take(i + 1),
{
    let longer = (start + part.take(i)).push(part[i]);
    assert(longer =~= start + part.take(i + 1));
    assert forall|k: int| 0 <= k < longer.len() implies longer[k] == goal[k] by {
        assert((start + part)[k] == goal.subrange(0, (start + part).len() as int)[k]);
    }
    assert(longer =~= goal.subrange(0, longer.len() as int));
}

/// What starts with a part that is made of two starts with the first.
pub proof fn lemma_parts_prefix(start: Seq<bool>, a: Seq<bool>, b: Seq<bool>, goal: Seq<bool>)
    requires
        (start + (a + b)).is_prefix_of(goal),
    ensures
        (start + a).is_prefix_of(goal),
        (start + a + b).is_prefix_of(goal),
        start + a + b == start + (a + b),
{
    assert(start + a + b =~= start + (a + b));
    assert forall|k: int| 0 <= k < (start + a).len() implies (start + a)[k] == goal[k] by {
        assert((start + (a + b))[k] == goal.subrange(0, (start + (a + b)).len() as int)[k]);
    }
    assert(start + a =~= goal.subrange(0, (start + a).len() as int));
}

proof fn lemma_small_power(n: u32)
    requires
        n < 8,
    ensures
        1u32 << n == pow2(n as nat),
        pow2(n as nat) <= 128,
        pow2((n + 1) as nat) == 2 * pow2(n as nat),
{
    lemma_pow2_unfold((n + 1) as nat);
    assert(pow2(n as nat) <= 128) by {
        lemma2_to64();
    }
    lemma_u32_shl_is_mul(1, n);
}

} // verus!
