//! Whatever is written the way deflate streams are is decoded to what it stands
//! for.

use vstd::arithmetic::power2::{lemma2_to64, pow2};
use vstd::prelude::*;

use crate::bits::{align, bit, number};
use crate::canon::{
    lemma_bytes_shown, lemma_distance_table, lemma_length_table, lemma_number_shown,
    lemma_share_unused, lemma_shows_parts, lemma_symbol_shown, lemma_usual,
};
use crate::decoding::{
    block_ended, lemma_at_block, lemma_at_code_lengths, lemma_at_distance, lemma_at_length,
    lemma_at_lengths, lemma_at_stored, lemma_at_stored_len, placed, read, Progress, Setup, State,
    ORDER,
};
use crate::fixed::lemma_fixed_complete;
use crate::huffman::unused;
use crate::output::copied;
use crate::roundtrip::lemma_next;
use crate::single::up_to_next;
use crate::steps::{lemma_dist_range, lemma_length_range, lemma_placed_len, lemma_small_powers};
use crate::syntax::{
    block_items, block_possible, block_tells, block_width, block_written, blocks_possible,
    blocks_tell, blocks_written, code_code_bits, codes_bits, codes_possible, distance, fill_bits,
    fill_symbol, fill_tells, fill_width, fill_writable, fills_bits, fills_tell, item_bits,
    item_tells, items_bits, items_tell, items_width, plain_bytes, plain_number, possible, reached,
    shows, symbol, usual_dists, usual_lits, width, writable, Block, Codes, Fill, Item, CODE_ORDER,
    DISTANCE_BITS, LENGTH_BITS,
};

verus! {

/// Whether a code can be read: there are no more symbols than codewords, none
/// of which is too long.
pub open spec fn readable(lengths: Seq<u8>) -> bool {
    &&& unused(lengths, 15) >= 0
    &&& forall|s: int| 0 <= s < lengths.len() ==> #[trigger] lengths[s] <= 15
}

/// A copy is what was said of it.
proof fn lemma_copied_is(after: Seq<u8>, n: int, dist: int, len: nat)
    requires
        0 <= n,
        n + len <= after.len(),
        1 <= dist <= n,
        forall|i: int| n <= i < after.len() ==> #[trigger] after[i] == after[i - dist],
    ensures
        copied(after.take(n), dist, len) == after.take(n + len),
    decreases len,
{
    if len > 0 {
        let m = (len - 1) as nat;
        lemma_copied_is(after, n, dist, m);
        let so_far = after.take(n + m);
        assert(after[n + m] == after[n + m - dist]);
        assert(so_far.push(so_far[so_far.len() - dist]) =~= after.take(n + len));
    }
}

/// An item is decoded to what it stands for.
pub proof fn lemma_item(setup: Setup, data: Seq<u8>, item: Item, p: Progress, after: Seq<u8>)
    requires
        p.state is Length,
        readable(p.len_code),
        readable(p.dist_code),
        writable(p.len_code, p.dist_code, item),
        shows(data, p.pos, item_bits(p.len_code, p.dist_code, item)),
        item_tells(item, p.out.len() as int, after),
        p.out == after.take(p.out.len() as int),
        after.len() <= setup.terms.most,
        distance(item) <= setup.terms.reach,
        setup.terms.reach != 0,
    ensures
        up_to_next(setup, data, p) == up_to_next(
            setup,
            data,
            (Progress {
                pos: p.pos + item_bits(p.len_code, p.dist_code, item).len(),
                out: after,
                ..p
            }),
        ),
{
    lemma_at_length(setup, p);
    lemma_next(setup, data, p);
    match item {
        Item::Byte(byte) => {
            lemma_symbol_shown(p.len_code, data, p.pos, byte as int);
            assert(p.out.push(byte) =~= after);
        },
        Item::Copy(s, more, t, far) => {
            let a = symbol(p.len_code, 257 + s);
            let b = plain_number(more, LENGTH_BITS@[s] as nat);
            let c = symbol(p.dist_code, t);
            let d = plain_number(far, DISTANCE_BITS@[t] as nat);
            lemma_shows_parts(data, p.pos, a + b, c + d);
            lemma_shows_parts(data, p.pos, a, b);
            lemma_shows_parts(data, p.pos + (a + b).len(), c, d);
            lemma_symbol_shown(p.len_code, data, p.pos, 257 + s);
            lemma_number_shown(data, p.pos + a.len(), more, LENGTH_BITS@[s] as nat);
            lemma_length_table(s);
            let len = width(item);
            let q = Progress { state: State::Distance(len as u32), pos: p.pos + (a + b).len(), ..p };
            assert(len < 0x1_0000) by {
                lemma_length_range(s, more);
            }
            assert(up_to_next(setup, data, p) == up_to_next(setup, data, q));
            lemma_at_distance(setup, q);
            lemma_next(setup, data, q);
            lemma_symbol_shown(p.dist_code, data, q.pos, t);
            lemma_number_shown(data, q.pos + c.len(), far, DISTANCE_BITS@[t] as nat);
            lemma_distance_table(t);
            lemma_dist_range(t, far);
            lemma_copied_is(after, p.out.len() as int, distance(item), len as nat);
            assert(after.take(p.out.len() + len) =~= after);
        },
    }
}

/// Items are.
pub proof fn lemma_items(setup: Setup, data: Seq<u8>, items: Seq<Item>, p: Progress, after: Seq<u8>)
    requires
        p.state is Length,
        readable(p.len_code),
        readable(p.dist_code),
        forall|i: int| 0 <= i < items.len() ==> writable(p.len_code, p.dist_code, #[trigger] items[i]),
        forall|i: int| 0 <= i < items.len() ==> distance(#[trigger] items[i]) <= setup.terms.reach,
        shows(data, p.pos, items_bits(p.len_code, p.dist_code, items)),
        items_tell(items, p.out, after),
        after.len() <= setup.terms.most,
        items.len() > 0 ==> setup.terms.reach != 0,
    ensures
        up_to_next(setup, data, p) == up_to_next(
            setup,
            data,
            (Progress {
                pos: p.pos + items_bits(p.len_code, p.dist_code, items).len(),
                out: after,
                ..p
            }),
        ),
    decreases items.len(),
{
    if items.len() > 0 {
        let fewer = items.drop_last();
        let first = items_bits(p.len_code, p.dist_code, fewer);
        let last = item_bits(p.len_code, p.dist_code, items.last());
        let n = after.len() - width(items.last());
        lemma_shows_parts(data, p.pos, first, last);
        assert forall|i: int| 0 <= i < fewer.len() implies writable(
            p.len_code,
            p.dist_code,
            #[trigger] fewer[i],
        ) && distance(fewer[i]) <= setup.terms.reach by {
            assert(fewer[i] == items[i]);
        }
        assert(items.last() == items[items.len() - 1]);
        lemma_width(items.last());
        lemma_items(setup, data, fewer, p, after.take(n));
        let q = Progress { pos: p.pos + first.len(), out: after.take(n), ..p };
        lemma_item(setup, data, items.last(), q, after);
        assert((first + last).len() == first.len() + last.len());
    } else {
        assert(items_bits(p.len_code, p.dist_code, items).len() == 0);
    }
}

/// There is something to every item.
pub proof fn lemma_width(item: Item)
    requires
        possible(item),
    ensures
        1 <= width(item) <= 258,
        item is Copy ==> 3 <= width(item) && 1 <= distance(item) <= 32768,
{
    if let Item::Copy(s, more, t, far) = item {
        lemma_length_table(s);
        lemma_length_range(s, more);
        lemma_distance_table(t);
        lemma_dist_range(t, far);
    }
}

/// Stored bytes are.
pub proof fn lemma_stored(setup: Setup, data: Seq<u8>, bytes: Seq<u8>, i: int, pos: int, before: Seq<u8>, p: Progress)
    requires
        0 <= i <= bytes.len() < 0x1_0000,
        shows(data, pos, plain_bytes(bytes)),
        p.state == State::Stored((bytes.len() - i) as u16),
        p.pos == pos + 8 * i,
        p.out == before + bytes.take(i),
        before.len() + bytes.len() <= setup.terms.most,
        bytes.len() > 0 ==> setup.terms.reach != 0,
    ensures
        up_to_next(setup, data, p) == up_to_next(
            setup,
            data,
            block_ended(
                setup,
                (Progress {
                    state: State::Stored(0),
                    pos: pos + plain_bytes(bytes).len(),
                    out: before + bytes,
                    ..p
                }),
            ),
        ),
    decreases bytes.len() - i,
{
    lemma_bytes_shown(data, pos, bytes);
    lemma_at_stored(setup, p);
    lemma_next(setup, data, p);
    if i < bytes.len() {
        let q = Progress {
            state: State::Stored((bytes.len() - i - 1) as u16),
            pos: p.pos + 8,
            out: p.out.push(bytes[i]),
            ..p
        };
        assert(read(data, pos + 8 * i, 8) == Some(bytes[i] as nat));
        assert(q.out =~= before + bytes.take(i + 1));
        lemma_stored(setup, data, bytes, i + 1, pos, before, q);
    } else {
        assert(bytes.take(i) =~= bytes);
    }
}

/// Where each symbol comes in the order of the lengths of the code length code.
const PLACES: [u8; 19] = [
    3, 17, 15, 13, 11, 9, 7, 5, 4, 6, 8, 10, 12, 14, 16, 18, 0, 1, 2,
];

proof fn lemma_places(k: int)
    requires
        0 <= k < 19,
    ensures
        CODE_ORDER@[k] == ORDER@[k],
        0 <= ORDER@[k] < 19,
        PLACES@[ORDER@[k] as int] == k,
        0 <= PLACES@[k] < 19,
        ORDER@[PLACES@[k] as int] == k,
{
    if k < 10 {
        assert(k == 0 || k == 1 || k == 2 || k == 3 || k == 4 || k == 5 || k == 6 || k == 7 || k == 8
            || k == 9);
    } else {
        assert(k == 10 || k == 11 || k == 12 || k == 13 || k == 14 || k == 15 || k == 16 || k == 17
            || k == 18);
    }
}

/// Every symbol of the code length code has a place.
pub proof fn lemma_place_of(s: int) -> (k: int)
    requires
        0 <= s < 19,
    ensures
        0 <= k < 19,
        CODE_ORDER@[k] == s,
{
    lemma_places(s);
    lemma_places(PLACES@[s] as int);
    PLACES@[s] as int
}

/// Lengths go where they belong.
pub proof fn lemma_placed_at(stored: Seq<u8>, n: nat, k: int)
    requires
        n <= 19,
        0 <= k < 19,
    ensures
        placed(stored, n).len() == 19,
        placed(stored, n)[CODE_ORDER@[k] as int] == (if k < n {
            stored[k]
        } else {
            0
        }),
    decreases n,
{
    lemma_placed_len(stored, n);
    lemma_places(k);
    if n > 0 {
        let m = (n - 1) as nat;
        lemma_placed_len(stored, m);
        lemma_placed_at(stored, m, k);
        lemma_places(m as int);
    }
}

/// So do all of them.
pub proof fn lemma_placed_is(stored: Seq<u8>, code: Seq<u8>, given: int)
    requires
        0 <= given <= 19,
        code.len() == 19,
        stored.len() == given,
        forall|i: int| 0 <= i < given ==> #[trigger] stored[i] == code[CODE_ORDER@[i] as int],
        forall|i: int| given <= i < 19 ==> #[trigger] code[CODE_ORDER@[i] as int] == 0,
    ensures
        placed(stored, given as nat) == code,
{
    let all = placed(stored, given as nat);
    lemma_placed_len(stored, given as nat);
    assert forall|s: int| 0 <= s < 19 implies #[trigger] all[s] == code[s] by {
        let k = PLACES@[s] as int;
        lemma_places(s);
        lemma_places(k);
        lemma_placed_at(stored, given as nat, k);
        if k < given {
            assert(stored[k] == code[CODE_ORDER@[k] as int]);
        } else {
            assert(code[CODE_ORDER@[k] as int] == 0);
        }
    }
    assert(all =~= code);
}

/// The lengths of the code length code are decoded.
pub proof fn lemma_code_code(setup: Setup, data: Seq<u8>, code: Seq<u8>, given: int, i: int, p: Progress)
    requires
        0 <= i <= given <= 19,
        code.len() == 19,
        forall|k: int| 0 <= k < 19 ==> #[trigger] code[CODE_ORDER@[k] as int] <= 7,
        shows(data, p.pos, code_code_bits(code, i)),
        p.state == State::CodeLengths(0),
        p.code_syms == given,
        p.lengths == Seq::<u8>::empty(),
    ensures
        up_to_next(setup, data, p) == up_to_next(
            setup,
            data,
            (Progress {
                state: State::CodeLengths(i as usize),
                pos: p.pos + code_code_bits(code, i).len(),
                lengths: Seq::new(i as nat, |k: int| code[CODE_ORDER@[k] as int]),
                ..p
            }),
        ),
        code_code_bits(code, i).len() == 3 * i,
    decreases i,
{
    let now = Seq::new(i as nat, |k: int| code[CODE_ORDER@[k] as int]);
    if i > 0 {
        let len = code[CODE_ORDER@[i - 1] as int];
        lemma_shows_parts(data, p.pos, code_code_bits(code, i - 1), plain_number(len as nat, 3));
        lemma_code_code(setup, data, code, given, i - 1, p);
        let before = Seq::new((i - 1) as nat, |k: int| code[CODE_ORDER@[k] as int]);
        let q = Progress {
            state: State::CodeLengths((i - 1) as usize),
            pos: p.pos + 3 * (i - 1),
            lengths: before,
            ..p
        };
        lemma_small_powers();
        lemma_number_shown(data, q.pos, len as nat, 3);
        lemma_at_code_lengths(setup, q);
        lemma_next(setup, data, q);
        assert(before.push(len) =~= now);
    } else {
        assert(now =~= Seq::<u8>::empty());
    }
}

/// Code lengths are decoded.
pub proof fn lemma_fill(setup: Setup, data: Seq<u8>, fill: Fill, p: Progress, after: Seq<u8>)
    requires
        p.state is Lengths,
        readable(p.len_code),
        p.len_code.len() == 19,
        fill_writable(p.len_code, fill),
        shows(data, p.pos, fill_bits(p.len_code, fill)),
        fill_tells(fill, p.lengths.len() as int, after),
        p.lengths == after.take(p.lengths.len() as int),
        after.len() <= p.syms,
    ensures
        up_to_next(setup, data, p) == up_to_next(
            setup,
            data,
            (Progress {
                state: State::Lengths(after.len() as usize),
                pos: p.pos + fill_bits(p.len_code, fill).len(),
                lengths: after,
                ..p
            }),
        ),
{
    let a = symbol(p.len_code, fill_symbol(fill));
    let b = match fill {
        Fill::Length(_) => Seq::<bool>::empty(),
        Fill::Again(n) => plain_number((n - 3) as nat, 2),
        Fill::Zeros(n) => plain_number((n - 3) as nat, 3),
        Fill::ManyZeros(n) => plain_number((n - 11) as nat, 7),
    };
    lemma_shows_parts(data, p.pos, a, b);
    lemma_symbol_shown(p.len_code, data, p.pos, fill_symbol(fill));
    lemma_small_powers();
    lemma_at_lengths(setup, p);
    lemma_next(setup, data, p);
    let m = p.lengths.len() as int;
    match fill {
        Fill::Length(len) => {
            assert(after[m] == len);
            assert(p.lengths + Seq::new(1, |i: int| len) =~= after);
        },
        Fill::Again(n) => {
            lemma_number_shown(data, p.pos + a.len(), (n - 3) as nat, 2);
            let len = p.lengths.last();
            assert(after[m - 1] == len);
            assert(p.lengths + Seq::new(n as nat, |i: int| len) =~= after);
        },
        Fill::Zeros(n) => {
            lemma_number_shown(data, p.pos + a.len(), (n - 3) as nat, 3);
            assert(p.lengths + Seq::new(n as nat, |i: int| 0u8) =~= after);
        },
        Fill::ManyZeros(n) => {
            lemma_number_shown(data, p.pos + a.len(), (n - 11) as nat, 7);
            assert(p.lengths + Seq::new(n as nat, |i: int| 0u8) =~= after);
        },
    }
}

pub proof fn lemma_fills(setup: Setup, data: Seq<u8>, fills: Seq<Fill>, p: Progress, after: Seq<u8>)
    requires
        p.state == State::Lengths(0),
        p.lengths.len() == 0,
        readable(p.len_code),
        p.len_code.len() == 19,
        forall|i: int| 0 <= i < fills.len() ==> fill_writable(p.len_code, #[trigger] fills[i]),
        shows(data, p.pos, fills_bits(p.len_code, fills)),
        fills_tell(fills, after),
        after.len() <= p.syms,
    ensures
        up_to_next(setup, data, p) == up_to_next(
            setup,
            data,
            (Progress {
                state: State::Lengths(after.len() as usize),
                pos: p.pos + fills_bits(p.len_code, fills).len(),
                lengths: after,
                ..p
            }),
        ),
        forall|s: int| 0 <= s < after.len() ==> #[trigger] after[s] <= 15,
    decreases fills.len(),
{
    if fills.len() > 0 {
        let fewer = fills.drop_last();
        let first = fills_bits(p.len_code, fewer);
        let last = fill_bits(p.len_code, fills.last());
        let n = after.len() - fill_width(fills.last());
        lemma_shows_parts(data, p.pos, first, last);
        assert forall|i: int| 0 <= i < fewer.len() implies fill_writable(
            p.len_code,
            #[trigger] fewer[i],
        ) by {
            assert(fewer[i] == fills[i]);
        }
        assert(fills.last() == fills[fills.len() - 1]);
        lemma_fills(setup, data, fewer, p, after.take(n));
        let q = Progress {
            state: State::Lengths(n as usize),
            pos: p.pos + first.len(),
            lengths: after.take(n),
            ..p
        };
        lemma_fill(setup, data, fills.last(), q, after);
        assert((first + last).len() == first.len() + last.len());
        assert forall|s: int| 0 <= s < after.len() implies #[trigger] after[s] <= 15 by {
            if s < n {
                assert(after.take(n)[s] == after[s]);
            } else if n > 0 {
                assert(after.take(n)[n - 1] == after[n - 1]);
            }
        }
    } else {
        assert(after =~= p.lengths);
        assert(fills_bits(p.len_code, fills).len() == 0);
    }
}

/// The three bits that a block starts with.
pub proof fn lemma_three(data: Seq<u8>, pos: int, a: bool, b: bool, c: bool)
    requires
        shows(data, pos, seq![a, b, c]),
    ensures
        read(data, pos, 1) == Some(if a {
            1nat
        } else {
            0nat
        }),
        read(data, pos + 1, 2) == Some(
            ((if b {
                1nat
            } else {
                0nat
            }) + (if c {
                2nat
            } else {
                0nat
            })) as nat,
        ),
{
    let part = seq![a, b, c];
    assert(part[0] == a && part[1] == b && part[2] == c);
    assert((bit(data, pos + 0) == 1) == part[0]);
    assert((bit(data, pos + 1) == 1) == part[1]);
    assert((bit(data, pos + 2) == 1) == part[2]);
    assert(bit(data, pos) <= 1 && bit(data, pos + 1) <= 1 && bit(data, pos + 2) <= 1);
    assert(number(data, pos + 1, 0) == 0 && number(data, pos + 3, 0) == 0);
    assert(number(data, pos + 2, 1) == bit(data, pos + 2) + 2 * number(data, pos + 3, 0));
    assert(number(data, pos + 1, 2) == bit(data, pos + 1) + 2 * number(data, pos + 2, 1));
}

/// The codes that a block brings along are decoded.
pub proof fn lemma_codes(setup: Setup, data: Seq<u8>, codes: Codes, last: bool, p: Progress) -> (q: Progress)
    requires
        p.state is Block,
        codes_possible(codes),
        shows(data, p.pos, seq![last, false, true] + codes_bits(codes)),
    ensures
        up_to_next(setup, data, p) == up_to_next(setup, data, q),
        q.state is Length,
        q.pos == p.pos + 3 + codes_bits(codes).len(),
        q.out == p.out,
        q.gzip == p.gzip,
        q.start == p.start,
        q.last == last,
        q.len_code == codes.lits,
        q.dist_code == codes.dists,
        readable(codes.lits),
        readable(codes.dists),
{
    let head = seq![last, false, true];
    let a = plain_number((codes.lits.len() - 257) as nat, 5);
    let b = plain_number((codes.dists.len() - 1) as nat, 5);
    let c = plain_number((codes.given - 4) as nat, 4);
    let d = code_code_bits(codes.code, codes.given);
    let e = fills_bits(codes.code, codes.fills);
    let pos = p.pos;
    lemma_shows_parts(data, pos, head, codes_bits(codes));
    lemma_shows_parts(data, pos + 3, a, b + (c + (d + e)));
    lemma_shows_parts(data, pos + 8, b, c + (d + e));
    lemma_shows_parts(data, pos + 13, c, d + e);
    lemma_shows_parts(data, pos + 17, d, e);
    lemma_three(data, pos, last, false, true);
    lemma_small_powers();
    lemma_number_shown(data, pos + 3, (codes.lits.len() - 257) as nat, 5);
    lemma_number_shown(data, pos + 8, (codes.dists.len() - 1) as nat, 5);
    lemma_number_shown(data, pos + 13, (codes.given - 4) as nat, 4);
    lemma_at_block(setup, p);
    lemma_next(setup, data, p);
    let one = Progress {
        state: State::CodeLengths(0),
        pos: pos + 17,
        last,
        len_syms: codes.lits.len(),
        syms: codes.lits.len() + codes.dists.len(),
        code_syms: codes.given as nat,
        lengths: Seq::empty(),
        ..p
    };
    assert(up_to_next(setup, data, p) == up_to_next(setup, data, one));
    lemma_code_code(setup, data, codes.code, codes.given, codes.given, one);
    let stored = Seq::new(codes.given as nat, |k: int| codes.code[CODE_ORDER@[k] as int]);
    let two = Progress {
        state: State::CodeLengths(codes.given as usize),
        pos: pos + 17 + d.len(),
        lengths: stored,
        ..one
    };
    lemma_placed_is(stored, codes.code, codes.given);
    assert forall|s: int| 0 <= s < codes.code.len() implies #[trigger] codes.code[s] <= 15 by {
        lemma_places(s);
        lemma_places(PLACES@[s] as int);
        assert(codes.code[CODE_ORDER@[PLACES@[s] as int] as int] <= 7);
    }
    lemma_share_unused(codes.code);
    lemma_at_code_lengths(setup, two);
    lemma_next(setup, data, two);
    let three = Progress { state: State::Lengths(0), len_code: codes.code, lengths: Seq::empty(), ..two };
    let all = codes.lits + codes.dists;
    assert(up_to_next(setup, data, two) == up_to_next(setup, data, three));
    lemma_fills(setup, data, codes.fills, three, all);
    let four = Progress {
        state: State::Lengths(all.len() as usize),
        pos: pos + 17 + d.len() + e.len(),
        lengths: all,
        ..three
    };
    assert forall|s: int| 0 <= s < codes.lits.len() implies #[trigger] codes.lits[s] <= 15 by {
        assert(all[s] == codes.lits[s]);
    }
    assert forall|s: int| 0 <= s < codes.dists.len() implies #[trigger] codes.dists[s] <= 15 by {
        assert(all[codes.lits.len() + s] == codes.dists[s]);
    }
    lemma_share_unused(codes.lits);
    lemma_share_unused(codes.dists);
    assert(all.take(codes.lits.len() as int) =~= codes.lits);
    assert(all.skip(codes.lits.len() as int) =~= codes.dists);
    assert(all[256] == codes.lits[256]);
    lemma_at_lengths(setup, four);
    lemma_next(setup, data, four);
    Progress { state: State::Length, len_code: codes.lits, dist_code: codes.dists, ..four }
}

/// Items, and the end of their block, are decoded.
proof fn lemma_items_ended(setup: Setup, data: Seq<u8>, items: Seq<Item>, p: Progress, after: Seq<u8>)
    requires
        p.state is Length,
        readable(p.len_code),
        readable(p.dist_code),
        p.len_code.len() > 256,
        p.len_code[256] > 0,
        forall|i: int| 0 <= i < items.len() ==> writable(p.len_code, p.dist_code, #[trigger] items[i]),
        forall|i: int| 0 <= i < items.len() ==> distance(#[trigger] items[i]) <= setup.terms.reach,
        shows(data, p.pos, items_bits(p.len_code, p.dist_code, items) + symbol(p.len_code, 256)),
        items_tell(items, p.out, after),
        after.len() <= setup.terms.most,
        items.len() > 0 ==> setup.terms.reach != 0,
    ensures
        up_to_next(setup, data, p) == up_to_next(
            setup,
            data,
            block_ended(
                setup,
                (Progress {
                    pos: p.pos + (items_bits(p.len_code, p.dist_code, items) + symbol(
                        p.len_code,
                        256,
                    )).len(),
                    out: after,
                    ..p
                }),
            ),
        ),
{
    let a = items_bits(p.len_code, p.dist_code, items);
    lemma_shows_parts(data, p.pos, a, symbol(p.len_code, 256));
    lemma_items(setup, data, items, p, after);
    let q = Progress { pos: p.pos + a.len(), out: after, ..p };
    lemma_symbol_shown(p.len_code, data, q.pos, 256);
    lemma_at_length(setup, q);
    lemma_next(setup, data, q);
}

/// Where a block leads.
pub open spec fn past_block(setup: Setup, p: Progress, last: bool, len: nat, after: Seq<u8>, q: Progress) -> bool {
    &&& q.state == (if !last {
        State::Block
    } else if setup.kind is Raw {
        State::Done
    } else {
        State::Checksum
    })
    &&& q.pos == (if last {
        align(p.pos + len)
    } else {
        p.pos + len
    })
    &&& q.out == after
    &&& q.gzip == p.gzip
    &&& q.start == p.start
}

/// A stored block is decoded.
#[verifier::spinoff_prover]
proof fn lemma_block_stored(
    setup: Setup,
    data: Seq<u8>,
    block: Block,
    last: bool,
    p: Progress,
    after: Seq<u8>,
) -> (q: Progress)
    requires
        p.state is Block,
        block_possible(block, p.pos),
        shows(data, p.pos, block_written(block, last)),
        block_tells(block, p.out, after),
        after.len() <= setup.terms.most,
        p.out.len() < after.len() ==> setup.terms.reach != 0,
        forall|i: int|
            0 <= i < block_items(block).len() ==> distance(#[trigger] block_items(block)[i])
                <= setup.terms.reach,
        block is Stored,
    ensures
        up_to_next(setup, data, p) == up_to_next(setup, data, q),
        past_block(setup, p, last, block_written(block, last).len(), after, q),
{
    let (pad, bytes) = (block->Stored_0, block->Stored_1);
    let head = seq![last, false, false];
    let a = plain_number(bytes.len(), 16);
    let b = plain_number((0xffff - bytes.len()) as nat, 16);
    let c = plain_bytes(bytes);
    lemma_shows_parts(data, p.pos, head, pad + (a + b + c));
    lemma_shows_parts(data, p.pos + 3, pad, a + b + c);
    let pos = p.pos + 3 + pad.len();
    lemma_shows_parts(data, pos, a + b, c);
    lemma_shows_parts(data, pos, a, b);
    lemma_three(data, p.pos, last, false, false);
    assert(align(p.pos + 3) == pos);
    lemma_at_block(setup, p);
    lemma_next(setup, data, p);
    let one = Progress { state: State::StoredLen, pos, last, ..p };
    assert(pow2(16) == 0x1_0000) by {
        lemma2_to64();
    }
    lemma_number_shown(data, pos, bytes.len(), 16);
    lemma_number_shown(data, pos + 16, (0xffff - bytes.len()) as nat, 16);
    lemma_at_stored_len(setup, one);
    lemma_next(setup, data, one);
    let two = Progress { state: State::Stored(bytes.len() as u16), pos: pos + 32, ..one };
    assert(up_to_next(setup, data, one) == up_to_next(setup, data, two));
    assert(p.out + bytes.take(0) =~= p.out);
    lemma_stored(setup, data, bytes, 0, pos + 32, p.out, two);
    let three = Progress {
        state: State::Stored(0),
        pos: pos + 32 + c.len(),
        out: p.out + bytes,
        ..two
    };
    block_ended(setup, three)
}

/// A block with the usual codes is decoded.
#[verifier::spinoff_prover]
proof fn lemma_block_usual(
    setup: Setup,
    data: Seq<u8>,
    block: Block,
    last: bool,
    p: Progress,
    after: Seq<u8>,
) -> (q: Progress)
    requires
        p.state is Block,
        block_possible(block, p.pos),
        shows(data, p.pos, block_written(block, last)),
        block_tells(block, p.out, after),
        after.len() <= setup.terms.most,
        p.out.len() < after.len() ==> setup.terms.reach != 0,
        forall|i: int|
            0 <= i < block_items(block).len() ==> distance(#[trigger] block_items(block)[i])
                <= setup.terms.reach,
        block is Usual,
    ensures
        up_to_next(setup, data, p) == up_to_next(setup, data, q),
        past_block(setup, p, last, block_written(block, last).len(), after, q),
{
    let items = block->Usual_0;
    let head = seq![last, true, false];
    let rest = items_bits(usual_lits(), usual_dists(), items) + symbol(usual_lits(), 256);
    lemma_usual();
    lemma_fixed_complete();
    lemma_shows_parts(data, p.pos, head, rest);
    lemma_three(data, p.pos, last, true, false);
    lemma_at_block(setup, p);
    lemma_next(setup, data, p);
    let one = Progress {
        state: State::Length,
        pos: p.pos + 3,
        last,
        len_code: usual_lits(),
        dist_code: usual_dists(),
        ..p
    };
    lemma_items_tell_more(items, p.out, after);
    assert(block_items(block) == items);
    assert forall|i: int| 0 <= i < items.len() implies writable(
        usual_lits(),
        usual_dists(),
        #[trigger] items[i],
    ) by {
        assert(block_items(block)[i] == items[i]);
    }
    lemma_items_ended(setup, data, items, one, after);
    block_ended(setup, Progress { pos: one.pos + rest.len(), out: after, ..one })
}

/// A block with codes of its own is decoded.
#[verifier::spinoff_prover]
proof fn lemma_block_own(
    setup: Setup,
    data: Seq<u8>,
    block: Block,
    last: bool,
    p: Progress,
    after: Seq<u8>,
) -> (q: Progress)
    requires
        p.state is Block,
        block_possible(block, p.pos),
        shows(data, p.pos, block_written(block, last)),
        block_tells(block, p.out, after),
        after.len() <= setup.terms.most,
        p.out.len() < after.len() ==> setup.terms.reach != 0,
        forall|i: int|
            0 <= i < block_items(block).len() ==> distance(#[trigger] block_items(block)[i])
                <= setup.terms.reach,
        block is Own,
    ensures
        up_to_next(setup, data, p) == up_to_next(setup, data, q),
        past_block(setup, p, last, block_written(block, last).len(), after, q),
{
    let (codes, items) = (block->Own_0, block->Own_1);
    let head = seq![last, false, true];
    let rest = items_bits(codes.lits, codes.dists, items) + symbol(codes.lits, 256);
    assert(block_written(block, last) =~= head + codes_bits(codes) + rest);
    lemma_shows_parts(data, p.pos, head + codes_bits(codes), rest);
    let one = lemma_codes(setup, data, codes, last, p);
    lemma_items_tell_more(items, p.out, after);
    assert forall|i: int| 0 <= i < items.len() implies writable(
        codes.lits,
        codes.dists,
        #[trigger] items[i],
    ) by {
        assert(block_items(block)[i] == items[i]);
    }
    lemma_items_ended(setup, data, items, one, after);
    block_ended(setup, Progress { pos: one.pos + rest.len(), out: after, ..one })
}

/// A block is decoded to what it stands for, wherever it starts.
pub proof fn lemma_block(
    setup: Setup,
    data: Seq<u8>,
    block: Block,
    last: bool,
    p: Progress,
    after: Seq<u8>,
) -> (q: Progress)
    requires
        p.state is Block,
        block_possible(block, p.pos),
        shows(data, p.pos, block_written(block, last)),
        block_tells(block, p.out, after),
        after.len() <= setup.terms.most,
        p.out.len() < after.len() ==> setup.terms.reach != 0,
        forall|i: int|
            0 <= i < block_items(block).len() ==> distance(#[trigger] block_items(block)[i])
                <= setup.terms.reach,
    ensures
        up_to_next(setup, data, p) == up_to_next(setup, data, q),
        past_block(setup, p, last, block_written(block, last).len(), after, q),
{
    match block {
        Block::Stored(_, _) => lemma_block_stored(setup, data, block, last, p, after),
        Block::Usual(_) => lemma_block_usual(setup, data, block, last, p, after),
        Block::Own(_, _) => lemma_block_own(setup, data, block, last, p, after),
    }
}

/// How much a block stands for.
pub proof fn lemma_block_width(block: Block, pos: int)
    requires
        block_possible(block, pos),
    ensures
        0 <= block_width(block),
{
    assert forall|i: int| 0 <= i < block_items(block).len() implies possible(
        #[trigger] block_items(block)[i],
    ) by {}
    lemma_items_width(block_items(block));
}

proof fn lemma_items_width(items: Seq<Item>)
    requires
        forall|i: int| 0 <= i < items.len() ==> possible(#[trigger] items[i]),
    ensures
        0 <= items_width(items),
    decreases items.len(),
{
    if items.len() > 0 {
        let fewer = items.drop_last();
        assert(items.last() == items[items.len() - 1]);
        lemma_width(items.last());
        assert forall|i: int| 0 <= i < fewer.len() implies possible(#[trigger] fewer[i]) by {
            assert(fewer[i] == items[i]);
        }
        lemma_items_width(fewer);
    }
}

/// Items that stand for nothing are none.
pub proof fn lemma_items_tell_more(items: Seq<Item>, before: Seq<u8>, after: Seq<u8>)
    requires
        items_tell(items, before, after),
        forall|i: int| 0 <= i < items.len() ==> possible(#[trigger] items[i]),
    ensures
        after.len() == before.len() + items_width(items),
        before.is_prefix_of(after),
        items.len() > 0 ==> before.len() < after.len(),
    decreases items.len(),
{
    if items.len() > 0 {
        let fewer = items.drop_last();
        let n = after.len() - width(items.last());
        assert(items.last() == items[items.len() - 1]);
        lemma_width(items.last());
        assert forall|i: int| 0 <= i < fewer.len() implies possible(#[trigger] fewer[i]) by {
            assert(fewer[i] == items[i]);
        }
        lemma_items_tell_more(fewer, before, after.take(n));
    }
}

/// Blocks are decoded to what they stand for, wherever they start.
pub proof fn lemma_blocks(
    setup: Setup,
    data: Seq<u8>,
    blocks: Seq<Block>,
    closed: bool,
    p: Progress,
    after: Seq<u8>,
) -> (q: Progress)
    requires
        p.state is Block,
        blocks_possible(blocks, p.pos),
        shows(data, p.pos, blocks_written(blocks, closed)),
        blocks_tell(blocks, p.out, after),
        after.len() <= setup.terms.most,
        after.len() > 0 ==> setup.terms.reach != 0,
        reached(blocks, setup.terms.reach),
    ensures
        up_to_next(setup, data, p) == up_to_next(setup, data, q),
        blocks.len() == 0 ==> q == p,
        blocks.len() > 0 ==> past_block(
            setup,
            p,
            closed,
            blocks_written(blocks, closed).len(),
            after,
            q,
        ),
    decreases blocks.len(),
{
    if blocks.len() == 0 {
        p
    } else {
        let fewer = blocks.drop_last();
        let block = blocks.last();
        let n = after.len() - block_width(block);
        let first = blocks_written(fewer, false);
        lemma_block_width(block, p.pos + first.len());
        lemma_shows_parts(data, p.pos, first, block_written(block, closed));
        assert forall|i: int, k: int|
            0 <= i < fewer.len() && 0 <= k < block_items(fewer[i]).len() implies distance(
            #[trigger] block_items(#[trigger] fewer[i])[k],
        ) <= setup.terms.reach by {
            assert(fewer[i] == blocks[i]);
            assert(distance(block_items(blocks[i])[k]) <= setup.terms.reach);
        }
        let q = lemma_blocks(setup, data, fewer, false, p, after.take(n));
        assert(blocks_tell(fewer, p.out, after.take(n)));
        assert(fewer.len() == 0 ==> first.len() == 0);
        assert(q.out == after.take(n));
        assert(block == blocks[blocks.len() - 1]);
        assert forall|i: int| 0 <= i < block_items(block).len() implies distance(
            #[trigger] block_items(block)[i],
        ) <= setup.terms.reach by {
            assert(distance(block_items(blocks[blocks.len() - 1])[i]) <= setup.terms.reach);
        }
        lemma_block(setup, data, block, closed, q, after)
    }
}

} // verus!
