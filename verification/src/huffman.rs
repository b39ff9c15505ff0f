//! Canonical Huffman codes (RFC 1951, section 3.2.2).
//!
//! A code is given by the length of the code of each symbol, zero for one
//! that has none. Shorter codes come first, and codes of the same length are
//! in the order of their symbols.

use vstd::arithmetic::power2::{lemma2_to64, lemma_pow2_unfold, pow2};
use vstd::prelude::*;

use crate::bits::{bit_len, code, lemma_code_prefix};

verus! {

/// The longest code there can be.
pub const MAX_BITS: usize = 15;

/// How many symbols have a code of `n` bits.
pub open spec fn count(lengths: Seq<u8>, n: int) -> nat
    decreases lengths.len(),
{
    if lengths.len() == 0 {
        0
    } else {
        count(lengths.drop_last(), n) + (if lengths.last() == n {
            1nat
        } else {
            0nat
        })
    }
}

/// The first code of `n` bits.
pub open spec fn first_code(lengths: Seq<u8>, n: nat) -> nat
    decreases n,
{
    if n <= 1 {
        0
    } else {
        2 * (first_code(lengths, (n - 1) as nat) + count(lengths, n - 1))
    }
}

/// The code of a symbol that has one.
pub open spec fn code_of(lengths: Seq<u8>, symbol: int) -> nat {
    let n = lengths[symbol];
    first_code(lengths, n as nat) + count(lengths.take(symbol), n as int)
}

/// How many codes of `n` bits, one at least, are left once every symbol with
/// a code of that length or less has got its own. Negative if there are more
/// symbols than codes.
pub open spec fn unused(lengths: Seq<u8>, n: nat) -> int {
    pow2(n) - first_code(lengths, n) - count(lengths, n as int)
}

/// Whether every code stands for a symbol.
pub open spec fn complete(lengths: Seq<u8>) -> bool {
    unused(lengths, 15) == 0
}

/// Whether a code is one that deflate permits for literals/lengths and for
/// distances: complete, or made of a single one-bit code, or empty.
pub open spec fn permitted(lengths: Seq<u8>) -> bool {
    ||| complete(lengths)
    ||| unused(lengths, 15) > 0 && forall|s: int| 0 <= s < lengths.len() ==> #[trigger] lengths[s] <= 1
}

/// Whether `c` is the code of `symbol`, of `n` bits.
pub open spec fn has_code(lengths: Seq<u8>, symbol: int, n: nat, c: nat) -> bool {
    &&& 0 <= symbol < lengths.len()
    &&& lengths[symbol] == n
    &&& code_of(lengths, symbol) == c
}

/// What there is to read at some position.
pub enum Found {
    /// A symbol, and how many bits its code has.
    Symbol(int, nat),
    /// Nothing that is a code.
    Nothing,
    /// Not enough bits to tell.
    Short,
}

/// The symbol that comes at position `pos`, given that its code has `n` bits
/// or more.
pub open spec fn symbol_from(lengths: Seq<u8>, data: Seq<u8>, pos: int, n: nat) -> Found
    decreases 16 - n,
{
    if n > 15 {
        Found::Nothing
    } else if pos + n > bit_len(data) {
        Found::Short
    } else if exists|s: int| has_code(lengths, s, n, code(data, pos, n)) {
        Found::Symbol(choose|s: int| has_code(lengths, s, n, code(data, pos, n)), n)
    } else {
        symbol_from(lengths, data, pos, n + 1)
    }
}

/// The symbol that comes at position `pos`.
pub open spec fn symbol_at(lengths: Seq<u8>, data: Seq<u8>, pos: int) -> Found {
    symbol_from(lengths, data, pos, 1)
}

/// A symbol that is there does not depend on the bytes that follow.
pub proof fn lemma_symbol_prefix(lengths: Seq<u8>, data: Seq<u8>, more: Seq<u8>, pos: int, n: nat)
    requires
        0 <= pos,
        symbol_from(lengths, data, pos, n) !is Short,
    ensures
        symbol_from(lengths, data + more, pos, n) == symbol_from(lengths, data, pos, n),
    decreases 16 - n,
{
    if n <= 15 {
        lemma_code_prefix(data, more, pos, n);
        if !(exists|s: int| has_code(lengths, s, n, code(data, pos, n))) {
            lemma_symbol_prefix(lengths, data, more, pos, n + 1);
        }
    }
}

/// A symbol takes as many bits as its code has, between one and fifteen, that
/// are there. Telling that there is none takes fifteen.
pub proof fn lemma_symbol_bits(lengths: Seq<u8>, data: Seq<u8>, pos: int, n: nat)
    ensures
        match symbol_from(lengths, data, pos, n) {
            Found::Symbol(s, k) => {
                &&& n <= k <= 15
                &&& pos + k <= bit_len(data)
                &&& 0 <= s < lengths.len()
                &&& lengths[s] == k
            },
            Found::Nothing => n <= 15 ==> pos + 15 <= bit_len(data),
            Found::Short => n <= 15 && bit_len(data) < pos + 15,
        },
    decreases 16 - n,
{
    if n <= 15 && pos + n <= bit_len(data) {
        if !(exists|s: int| has_code(lengths, s, n, code(data, pos, n))) {
            lemma_symbol_bits(lengths, data, pos, n + 1);
        }
    }
}

/// Of the symbols before `j`, at least as many have a code of `n` bits as of
/// those before `i`, one more if symbol `i` does.
pub proof fn lemma_count_grows(lengths: Seq<u8>, n: int, i: int, j: int)
    requires
        0 <= i <= j <= lengths.len(),
    ensures
        count(lengths.take(i), n) <= count(lengths.take(j), n),
        i < j && lengths[i] == n ==> count(lengths.take(i), n) < count(lengths.take(j), n),
    decreases j - i,
{
    if i < j {
        lemma_count_grows(lengths, n, i, j - 1);
        assert(lengths.take(j).drop_last() =~= lengths.take(j - 1));
    }
}

pub proof fn lemma_count_step(lengths: Seq<u8>, n: int, i: int)
    requires
        0 <= i < lengths.len(),
    ensures
        count(lengths.take(i + 1), n) == count(lengths.take(i), n) + (if lengths[i] == n {
            1int
        } else {
            0int
        }),
{
    assert(lengths.take(i + 1).drop_last() =~= lengths.take(i));
}

/// Codes of `n` bits go to symbols in turn.
proof fn lemma_ranked(lengths: Seq<u8>, n: int, k: int) -> (s: int)
    requires
        0 <= k < count(lengths, n),
    ensures
        0 <= s < lengths.len(),
        lengths[s] == n,
        count(lengths.take(s), n) == k,
    decreases lengths.len(),
{
    let shorter = lengths.drop_last();
    if k < count(shorter, n) {
        let s = lemma_ranked(shorter, n, k);
        assert(shorter.take(s) =~= lengths.take(s));
        s
    } else {
        let s = lengths.len() - 1;
        assert(lengths.take(s) =~= shorter);
        s
    }
}

/// A code of `n` bits stands for a symbol when it is in the range of such
/// codes, and for one only.
pub proof fn lemma_code_range(lengths: Seq<u8>, n: nat, c: nat)
    requires
        n > 0,
    ensures
        (exists|s: int| has_code(lengths, s, n, c)) <==> first_code(lengths, n) <= c < first_code(
            lengths,
            n,
        ) + count(lengths, n as int),
        forall|s: int, t: int|
            #![trigger has_code(lengths, s, n, c), has_code(lengths, t, n, c)]
            has_code(lengths, s, n, c) && has_code(lengths, t, n, c) ==> s == t,
{
    let first = first_code(lengths, n);
    if first <= c < first + count(lengths, n as int) {
        let s = lemma_ranked(lengths, n as int, c - first);
        assert(has_code(lengths, s, n, c));
    }
    assert forall|s: int| has_code(lengths, s, n, c) implies first <= c < first + count(lengths, n as int) by {
        lemma_count_grows(lengths, n as int, s, lengths.len() as int);
        assert(lengths.take(lengths.len() as int) =~= lengths);
    }
    assert forall|s: int, t: int|
        #![trigger has_code(lengths, s, n, c), has_code(lengths, t, n, c)]
        has_code(lengths, s, n, c) && has_code(lengths, t, n, c) implies s == t by {
        if s < t {
            lemma_count_grows(lengths, n as int, s, t);
        } else if t < s {
            lemma_count_grows(lengths, n as int, t, s);
        }
    }
}

/// The codes left unused with one bit more.
pub proof fn lemma_unused_step(lengths: Seq<u8>, n: nat)
    requires
        n >= 1,
    ensures
        unused(lengths, n + 1) == 2 * unused(lengths, n) - count(lengths, n as int + 1),
        unused(lengths, 1) == 2 - count(lengths, 1),
{
    lemma_pow2_unfold(n + 1);
    assert(pow2(1) == 2) by {
        lemma2_to64();
    }
}

/// Too many symbols for the codes is nothing that longer codes can mend.
pub proof fn lemma_unused_negative(lengths: Seq<u8>, n: nat, m: nat)
    requires
        1 <= n <= m,
        unused(lengths, n) < 0,
    ensures
        unused(lengths, m) < 0,
    decreases m - n,
{
    if n < m {
        lemma_unused_step(lengths, n);
        lemma_unused_negative(lengths, n + 1, m);
    }
}

/// Where the symbols with a code of `n` bits start, once the symbols that have
/// a code are in the order of their codes.
pub open spec fn offset(lengths: Seq<u8>, n: nat) -> nat
    decreases n,
{
    if n <= 1 {
        0
    } else {
        offset(lengths, (n - 1) as nat) + count(lengths, n - 1)
    }
}

proof fn lemma_offset_last(lengths: Seq<u8>, n: nat)
    requires
        lengths.len() > 0,
    ensures
        offset(lengths, n) == offset(lengths.drop_last(), n) + (if 1 <= lengths.last() < n {
            1nat
        } else {
            0nat
        }),
    decreases n,
{
    if n > 1 {
        lemma_offset_last(lengths, (n - 1) as nat);
    }
}

/// The symbols that have a code fit in as many places.
pub proof fn lemma_offset_total(lengths: Seq<u8>, n: nat)
    ensures
        offset(lengths, n) <= lengths.len(),
    decreases lengths.len(),
{
    if lengths.len() > 0 {
        lemma_offset_last(lengths, n);
        lemma_offset_total(lengths.drop_last(), n);
    } else {
        lemma_offset_empty(lengths, n);
    }
}

proof fn lemma_offset_empty(lengths: Seq<u8>, n: nat)
    requires
        lengths.len() == 0,
    ensures
        offset(lengths, n) == 0,
    decreases n,
{
    if n > 1 {
        lemma_offset_empty(lengths, (n - 1) as nat);
    }
}

proof fn lemma_offset_order(lengths: Seq<u8>, n: nat, m: nat)
    requires
        1 <= n < m,
    ensures
        offset(lengths, n) + count(lengths, n as int) <= offset(lengths, m),
    decreases m,
{
    if n + 1 < m {
        lemma_offset_order(lengths, n, (m - 1) as nat);
    }
}

/// The place of a symbol that has a code, among those that do, in the order
/// of their codes.
pub open spec fn place(lengths: Seq<u8>, s: int) -> int {
    (offset(lengths, lengths[s] as nat) + count(lengths.take(s), lengths[s] as int)) as int
}

pub proof fn lemma_place_bound(lengths: Seq<u8>, s: int)
    requires
        0 <= s < lengths.len(),
        lengths[s] >= 1,
    ensures
        0 <= place(lengths, s) < offset(lengths, lengths[s] as nat + 1) <= lengths.len(),
        place(lengths, s) < offset(lengths, lengths[s] as nat) + count(lengths, lengths[s] as int),
{
    let n = lengths[s] as nat;
    lemma_count_grows(lengths, n as int, s, lengths.len() as int);
    assert(lengths.take(lengths.len() as int) =~= lengths);
    lemma_offset_total(lengths, n + 1);
}

/// No two symbols have the same place.
proof fn lemma_places_differ(lengths: Seq<u8>, s: int, t: int)
    requires
        0 <= s < t < lengths.len(),
        lengths[s] >= 1,
        lengths[t] >= 1,
    ensures
        place(lengths, s) != place(lengths, t),
{
    lemma_place_bound(lengths, s);
    lemma_place_bound(lengths, t);
    if lengths[s] == lengths[t] {
        lemma_count_grows(lengths, lengths[s] as int, s, t);
    } else if lengths[s] < lengths[t] {
        lemma_offset_order(lengths, lengths[s] as nat, lengths[t] as nat);
    } else {
        lemma_offset_order(lengths, lengths[t] as nat, lengths[s] as nat);
    }
}

/// A canonical Huffman code: `count[n]` codes of `n` bits each, and the
/// symbols they decode to, ordered by code.
pub struct Huffman<const N: usize> {
    pub count: [u16; 16],
    pub symbol: [u16; N],
    /// The number of unused codes: zero for a complete code, negative for an
    /// over-subscribed one.
    pub left: i32,
}

impl<const N: usize> Huffman<N> {
    /// Whether this is the code with the given lengths.
    pub open spec fn is(&self, lengths: Seq<u8>) -> bool {
        &&& lengths.len() <= N
        &&& lengths.len() <= 320
        &&& forall|s: int| 0 <= s < lengths.len() ==> #[trigger] lengths[s] <= 15
        &&& forall|n: int| 0 <= n <= 15 ==> #[trigger] self.count@[n] == count(lengths, n)
        &&& forall|s: int|
            0 <= s < lengths.len() && #[trigger] lengths[s] >= 1 ==> self.symbol@[place(lengths, s)] == s
        &&& self.left == unused(lengths, 15)
    }

    /// Whether this is an empty code that nothing was built in place of yet.
    pub open spec fn blank(&self) -> bool {
        &&& self.count@ == Seq::new(16, |n: int| 0u16)
        &&& self.symbol@ == Seq::new(N as nat, |k: int| 0u16)
        &&& self.left == 1
    }

    /// An empty code, to `build` in place.
    pub fn new() -> (r: Self)
        ensures
            r.blank(),
    {
        let r: Self = Huffman { count: [0; 16], symbol: [0; N], left: 1 };
        assert(r.count@ =~= Seq::new(16, |n: int| 0u16));
        assert(r.symbol@ =~= Seq::new(N as nat, |k: int| 0u16));
        r
    }

    /// Builds an empty code from the code length of each symbol.
    pub fn build(&mut self, lengths: &[u8])
        requires
            lengths@.len() <= N,
            lengths@.len() <= 320,
            forall|s: int| 0 <= s < lengths@.len() ==> #[trigger] lengths@[s] <= 15,
        ensures
            final(self).is(lengths@),
    {
        let mut counts: [u16; 16] = [0; 16];
        let mut i: usize = 0;
        while i < lengths.len()
            invariant
                i <= lengths@.len() <= 320,
                forall|s: int| 0 <= s < lengths@.len() ==> #[trigger] lengths@[s] <= 15,
                forall|n: int| 0 <= n <= 15 ==> #[trigger] counts@[n] == count(lengths@.take(i as int), n) <= i,
            decreases lengths@.len() - i,
        {
            let len: usize = lengths[i] as usize;
            let ghost before = counts@;
            assert(before[len as int] <= i);
            counts[len] = counts[len] + 1;
            assert forall|n: int| 0 <= n <= 15 implies #[trigger] counts@[n] == count(
                lengths@.take(i + 1),
                n,
            ) <= i + 1 by {
                lemma_count_step(lengths@, n, i as int);
                assert(before[n] == count(lengths@.take(i as int), n));
            }
            i += 1;
        }
        assert(lengths@.take(i as int) =~= lengths@);

        let mut left: i32 = 1;
        let mut offsets: [u16; 16] = [0; 16];
        let mut len: usize = 1;
        let ghost mut power: int = 1;
        proof {
            assert(pow2(0) == 1) by {
                lemma2_to64();
            }
        }
        while len <= MAX_BITS
            invariant
                1 <= len <= 16,
                lengths@.len() <= 320,
                power == pow2((len - 1) as nat),
                1 <= power <= 32768,
                len <= 15 ==> power <= 16384,
                forall|n: int| 0 <= n <= 15 ==> #[trigger] counts@[n] == count(lengths@, n) <= 320,
                forall|n: int| 1 <= n <= 15 && n <= len ==> #[trigger] offsets@[n] == offset(lengths@, n as nat),
                len == 1 ==> left == 1,
                len > 1 ==> left == unused(lengths@, (len - 1) as nat),
                -320 * (power - 1) <= left <= power,
            decreases 16 - len,
        {
            proof {
                lemma_pow2_unfold(len as nat);
                lemma_power_bound(len as nat);
                if len > 1 {
                    lemma_unused_step(lengths@, (len - 1) as nat);
                } else {
                    lemma_unused_step(lengths@, 1);
                }
                lemma_offset_total(lengths@, (len + 1) as nat);
                assert(counts@[len as int] == count(lengths@, len as int));
            }
            left = left * 2 - counts[len] as i32;
            if len < MAX_BITS {
                offsets[len + 1] = offsets[len] + counts[len];
            }
            proof {
                power = 2 * power;
            }
            len += 1;
        }

        let ghost starts = offsets@;
        let mut sym: usize = 0;
        while sym < lengths.len()
            invariant
                sym <= lengths@.len() <= 320,
                lengths@.len() <= N,
                forall|s: int| 0 <= s < lengths@.len() ==> #[trigger] lengths@[s] <= 15,
                forall|n: int|
                    1 <= n <= 15 ==> #[trigger] offsets@[n] == offset(lengths@, n as nat) + count(
                        lengths@.take(sym as int),
                        n,
                    ),
                forall|s: int|
                    0 <= s < sym && #[trigger] lengths@[s] >= 1 ==> self.symbol@[place(lengths@, s)] == s,
            decreases lengths@.len() - sym,
        {
            let len: usize = lengths[sym] as usize;
            let ghost before = offsets@;
            let ghost symbols = self.symbol@;
            proof {
                assert(lengths@[sym as int] <= 15);
            }
            if len != 0 {
                proof {
                    lemma_place_bound(lengths@, sym as int);
                    assert(offsets@[len as int] == place(lengths@, sym as int));
                }
                let at: usize = offsets[len] as usize;
                self.symbol[at] = sym as u16;
                offsets[len] = offsets[len] + 1;
                assert forall|s: int| 0 <= s < sym + 1 && #[trigger] lengths@[s] >= 1 implies
                    self.symbol@[place(lengths@, s)] == s by {
                    if s < sym {
                        lemma_places_differ(lengths@, s, sym as int);
                        lemma_place_bound(lengths@, s);
                        assert(symbols[place(lengths@, s)] == s);
                    }
                }
            }
            assert forall|n: int| 1 <= n <= 15 implies #[trigger] offsets@[n] == offset(lengths@, n as nat)
                + count(lengths@.take(sym + 1), n) by {
                lemma_count_step(lengths@, n, sym as int);
                assert(before[n] == offset(lengths@, n as nat) + count(lengths@.take(sym as int), n));
            }
            sym += 1;
        }
        self.count = counts;
        self.left = left;
    }

    /// Whether the code is one deflate permits for literals/lengths and for
    /// distances: complete, or made of a single one-bit code.
    pub fn is_valid(&self, symbols: usize, Ghost(lengths): Ghost<Seq<u8>>) -> (r: bool)
        requires
            self.is(lengths),
            symbols == lengths.len(),
        ensures
            r == permitted(lengths),
    {
        proof {
            lemma_count_two(lengths);
            assert(self.count@[0] == count(lengths, 0));
            assert(self.count@[1] == count(lengths, 1));
        }
        self.left == 0 || (self.left > 0 && symbols == (self.count[0] + self.count[1]) as usize)
    }
}

proof fn lemma_power_bound(n: nat)
    requires
        n <= 15,
    ensures
        1 <= pow2(n) <= 32768,
        n <= 14 ==> pow2(n) <= 16384,
{
    lemma2_to64();
}

/// Every symbol has a code of at most one bit when those with none and those
/// with a one-bit one are all there is.
proof fn lemma_count_two(lengths: Seq<u8>)
    ensures
        count(lengths, 0) + count(lengths, 1) <= lengths.len(),
        (count(lengths, 0) + count(lengths, 1) == lengths.len()) <==> (forall|s: int|
            0 <= s < lengths.len() ==> #[trigger] lengths[s] <= 1),
    decreases lengths.len(),
{
    if lengths.len() > 0 {
        let shorter = lengths.drop_last();
        lemma_count_two(shorter);
        if forall|s: int| 0 <= s < lengths.len() ==> #[trigger] lengths[s] <= 1 {
            assert(lengths[lengths.len() - 1] <= 1);
            assert forall|s: int| 0 <= s < shorter.len() implies #[trigger] shorter[s] <= 1 by {
                assert(lengths[s] <= 1);
            }
        }
        if count(lengths, 0) + count(lengths, 1) == lengths.len() {
            assert forall|s: int| 0 <= s < lengths.len() implies #[trigger] lengths[s] <= 1 by {
                if s < shorter.len() {
                    assert(shorter[s] <= 1);
                }
            }
        }
    }
}

} // verus!
