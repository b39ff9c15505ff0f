//! Whatever decodes is written the way deflate streams are.

use vstd::arithmetic::power2::{lemma2_to64, pow2};
use vstd::prelude::*;

use crate::bits::{bit, bit_len, number};
use crate::canon::{
    lemma_distance_table, lemma_length_table, lemma_number_there, lemma_share_unused,
    lemma_shows_parts, lemma_symbol_is_there, lemma_usual,
};
use crate::decoding::{
    bits_left, block_ended, dist_base, dist_extra, lemma_at_block, lemma_at_code_lengths,
    lemma_at_distance, lemma_at_end, lemma_at_length, lemma_at_lengths, lemma_at_stored,
    lemma_at_stored_len, lemma_step_shrinks, length_base, length_extra, placed, rank, read, step,
    Progress, Setup, State,
};
use crate::huffman::{complete, symbol_at};
use crate::output::{copied, lemma_copied};
use crate::roundtrip::lemma_next;
use crate::single::up_to_next;
use crate::steps::{
    lemma_dist_range, lemma_length_range, lemma_read_bound, lemma_small_powers, lemma_step_forward,
};
use crate::syntax::{
    block_items, block_possible, block_tells, block_width, block_written, blocks_possible,
    blocks_tell, blocks_written, code_code_bits, codes_bits, codes_possible, fill_bits, fill_tells,
    fill_writable, fills_bits, fills_tell, item_bits, items_bits, items_tell, plain_bytes,
    plain_number, possible, shows, symbol, usual_dists, usual_lits, writable, Block, Codes, Fill,
    Item, CODE_ORDER,
};
use crate::understood::{lemma_items_tell_more, lemma_place_of, lemma_placed_at, past_block};

verus! {

/// Whether decoding got to the end of something.
pub open spec fn settled(p: Progress) -> bool {
    p.state is Done || p.state is Next
}

/// What gets to the end takes another step, that does not fail.
pub proof fn lemma_goes_on(setup: Setup, data: Seq<u8>, p: Progress) -> (q: Progress)
    requires
        0 <= p.pos,
        settled(up_to_next(setup, data, p)),
        !settled(p),
    ensures
        step(setup, data, p) == Some(q),
        up_to_next(setup, data, p) == up_to_next(setup, data, q),
        q.state !is Failed,
        bits_left(data, q) < bits_left(data, p) || (bits_left(data, q) == bits_left(data, p) && rank(q.state)
            < rank(p.state)),
        0 <= q.pos,
{
    lemma_next(setup, data, p);
    let q = step(setup, data, p)->0;
    lemma_step_shrinks(setup, data, p);
    lemma_step_forward(setup, data, p);
    if q.state is Failed {
        lemma_at_end(setup, q);
        lemma_next(setup, data, q);
    }
    q
}

/// A copy repeats what is so far back.
pub proof fn lemma_copied_tells(history: Seq<u8>, dist: int, len: nat, i: int)
    requires
        1 <= dist <= history.len(),
        history.len() <= i < history.len() + len,
    ensures
        copied(history, dist, len)[i] == copied(history, dist, len)[i - dist],
    decreases len,
{
    lemma_copied(history, dist, len);
    let m = (len - 1) as nat;
    lemma_copied(history, dist, m);
    if i < history.len() + m {
        lemma_copied_tells(history, dist, m, i);
    }
}

/// What comes where there are items.
proof fn explain_items(
    setup: Setup,
    data: Seq<u8>,
    first: Progress,
    items: Seq<Item>,
    p: Progress,
) -> (r: (Seq<Item>, Progress))
    requires
        p.state is Length,
        0 <= first.pos,
        first.state is Length,
        p == (Progress { pos: p.pos, out: p.out, ..first }),
        settled(up_to_next(setup, data, p)),
        forall|i: int| 0 <= i < items.len() ==> writable(p.len_code, p.dist_code, #[trigger] items[i]),
        shows(data, first.pos, items_bits(p.len_code, p.dist_code, items)),
        p.pos == first.pos + items_bits(p.len_code, p.dist_code, items).len(),
        items_tell(items, first.out, p.out),
    ensures
        ({
            let (all, q) = r;
            let bits = items_bits(p.len_code, p.dist_code, all) + symbol(p.len_code, 256);
            &&& forall|i: int| 0 <= i < all.len() ==> writable(p.len_code, p.dist_code, #[trigger] all[i])
            &&& shows(data, first.pos, bits)
            &&& q == (Progress { pos: first.pos + bits.len(), out: q.out, ..first })
            &&& items_tell(all, first.out, q.out)
            &&& up_to_next(setup, data, p) == up_to_next(setup, data, block_ended(setup, q))
            &&& bits_left(data, q) < bits_left(data, p)
        }),
    decreases bits_left(data, p), rank(p.state),
{
    let (lits, dists) = (p.len_code, p.dist_code);
    let so_far = items_bits(lits, dists, items);
    let next = lemma_goes_on(setup, data, p);
    lemma_at_length(setup, p);
    lemma_symbol_is_there(lits, data, p.pos);
    let s = symbol_at(lits, data, p.pos)->Symbol_0;
    let n = symbol_at(lits, data, p.pos)->Symbol_1;
    if s < 256 {
        let item = Item::Byte(s as u8);
        let more = items.push(item);
        assert(more.drop_last() =~= items);
        assert(next.out.take(p.out.len() as int) =~= p.out);
        lemma_shows_parts(data, first.pos, so_far, item_bits(lits, dists, item));
        explain_items(setup, data, first, more, next)
    } else if s == 256 {
        lemma_shows_parts(data, first.pos, so_far, symbol(lits, 256));
        (items, Progress { pos: p.pos + n, ..p })
    } else {
        let k = s - 257;
        let extra = length_extra(k);
        lemma_number_there(data, p.pos + n, extra);
        let more = read(data, p.pos + n, extra)->0;
        lemma_length_range(k, more);
        lemma_length_table(k);
        let last = lemma_goes_on(setup, data, next);
        lemma_at_distance(setup, next);
        lemma_symbol_is_there(dists, data, next.pos);
        let t = symbol_at(dists, data, next.pos)->Symbol_0;
        let m = symbol_at(dists, data, next.pos)->Symbol_1;
        lemma_number_there(data, next.pos + m, dist_extra(t));
        let far = read(data, next.pos + m, dist_extra(t))->0;
        lemma_dist_range(t, far);
        lemma_distance_table(t);
        let item = Item::Copy(k, more, t, far);
        let (a, b) = (symbol(lits, s), plain_number(more, extra));
        let (c, d) = (symbol(dists, t), plain_number(far, dist_extra(t)));
        lemma_shows_parts(data, p.pos, a, b);
        lemma_shows_parts(data, next.pos, c, d);
        lemma_shows_parts(data, p.pos, a + b, c + d);
        lemma_shows_parts(data, first.pos, so_far, item_bits(lits, dists, item));
        let all = items.push(item);
        assert(all.drop_last() =~= items);
        let len = length_base(k) + more;
        let dist = dist_base(t) + far;
        lemma_copied(p.out, dist, len as nat);
        assert forall|i: int| p.out.len() <= i < last.out.len() implies #[trigger] last.out[i]
            == last.out[i - dist] by {
            lemma_copied_tells(p.out, dist, len as nat, i);
        }
        assert(last.out.take(p.out.len() as int) =~= p.out);
        explain_items(setup, data, first, all, last)
    }
}

/// What comes where there are stored bytes.
proof fn explain_stored(
    setup: Setup,
    data: Seq<u8>,
    first: Progress,
    bytes: Seq<u8>,
    p: Progress,
) -> (r: (Seq<u8>, Progress))
    requires
        first.state is Stored,
        p.state == State::Stored((first.state->Stored_0 - bytes.len()) as u16),
        bytes.len() <= first.state->Stored_0,
        0 <= first.pos,
        p == (Progress { state: p.state, pos: p.pos, out: p.out, ..first }),
        settled(up_to_next(setup, data, p)),
        shows(data, first.pos, plain_bytes(bytes)),
        p.pos == first.pos + plain_bytes(bytes).len(),
        p.out == first.out + bytes,
    ensures
        ({
            let (all, q) = r;
            &&& all.len() == first.state->Stored_0
            &&& shows(data, first.pos, plain_bytes(all))
            &&& q == (Progress {
                state: q.state,
                pos: first.pos + plain_bytes(all).len(),
                out: first.out + all,
                ..first
            })
            &&& up_to_next(setup, data, p) == up_to_next(setup, data, block_ended(setup, q))
        }),
    decreases bits_left(data, p), rank(p.state),
{
    let next = lemma_goes_on(setup, data, p);
    lemma_at_stored(setup, p);
    if bytes.len() == first.state->Stored_0 {
        (bytes, p)
    } else {
        lemma_number_there(data, p.pos, 8);
        lemma_small_powers();
        let byte = read(data, p.pos, 8)->0 as u8;
        let more = bytes.push(byte);
        assert(more.drop_last() =~= bytes);
        lemma_shows_parts(data, first.pos, plain_bytes(bytes), plain_number(byte as nat, 8));
        assert(p.out.push(byte) =~= first.out + more);
        explain_stored(setup, data, first, more, next)
    }
}

/// What comes where there are lengths of the code length code.
proof fn explain_code_code(setup: Setup, data: Seq<u8>, first: Progress, p: Progress) -> (r: (Seq<u8>, Progress))
    requires
        first.state is CodeLengths,
        p.state is CodeLengths,
        0 <= first.pos,
        first.code_syms <= 19,
        p == (Progress { state: p.state, pos: p.pos, lengths: p.lengths, ..first }),
        settled(up_to_next(setup, data, p)),
        p.pos == first.pos + 3 * p.lengths.len(),
        p.lengths.len() <= p.code_syms,
        forall|k: int|
            0 <= k < p.lengths.len() ==> read(data, first.pos + 3 * k, 3) == Some(
                (#[trigger] p.lengths[k]) as nat,
            ) && p.lengths[k] <= 7,
    ensures
        ({
            let (stored, q) = r;
            let code = placed(stored, stored.len());
            &&& stored.len() == first.code_syms
            &&& forall|k: int|
                0 <= k < stored.len() ==> read(data, first.pos + 3 * k, 3) == Some(
                    (#[trigger] stored[k]) as nat,
                ) && stored[k] <= 7
            &&& complete(code)
            &&& q == (Progress {
                state: State::Lengths(0),
                pos: first.pos + 3 * stored.len(),
                len_code: code,
                lengths: Seq::empty(),
                ..first
            })
            &&& up_to_next(setup, data, p) == up_to_next(setup, data, q)
        }),
    decreases bits_left(data, p), rank(p.state),
{
    let next = lemma_goes_on(setup, data, p);
    lemma_at_code_lengths(setup, p);
    if p.lengths.len() < p.code_syms {
        lemma_read_bound(data, p.pos, 3);
        assert forall|k: int| 0 <= k < next.lengths.len() implies read(data, first.pos + 3 * k, 3) == Some(
            (#[trigger] next.lengths[k]) as nat,
        ) && next.lengths[k] <= 7 by {
            if k < p.lengths.len() {
                assert(next.lengths[k] == p.lengths[k]);
            }
        }
        explain_code_code(setup, data, first, next)
    } else {
        (p.lengths, next)
    }
}

/// The lengths of the code length code are there.
proof fn lemma_code_code_there(data: Seq<u8>, pos: int, code: Seq<u8>, stored: Seq<u8>, n: int)
    requires
        0 <= pos,
        0 <= n <= stored.len() <= 19,
        forall|k: int|
            0 <= k < stored.len() ==> read(data, pos + 3 * k, 3) == Some((#[trigger] stored[k]) as nat),
        forall|k: int| 0 <= k < stored.len() ==> code[CODE_ORDER@[k] as int] == #[trigger] stored[k],
        pos <= bit_len(data),
    ensures
        shows(data, pos, code_code_bits(code, n)),
        code_code_bits(code, n).len() == 3 * n,
    decreases n,
{
    if n > 0 {
        lemma_code_code_there(data, pos, code, stored, n - 1);
        assert(read(data, pos + 3 * (n - 1), 3) == Some(stored[n - 1] as nat));
        lemma_number_there(data, pos + 3 * (n - 1), 3);
        lemma_shows_parts(
            data,
            pos,
            code_code_bits(code, n - 1),
            plain_number(code[CODE_ORDER@[n - 1] as int] as nat, 3),
        );
    }
}

/// What comes where there are code lengths.
proof fn explain_fills(
    setup: Setup,
    data: Seq<u8>,
    first: Progress,
    fills: Seq<Fill>,
    p: Progress,
) -> (r: (Seq<Fill>, Progress))
    requires
        first.state is Lengths,
        p.state is Lengths,
        0 <= first.pos,
        first.len_code.len() == 19,
        p == (Progress { state: p.state, pos: p.pos, lengths: p.lengths, ..first }),
        settled(up_to_next(setup, data, p)),
        forall|i: int| 0 <= i < fills.len() ==> fill_writable(p.len_code, #[trigger] fills[i]),
        shows(data, first.pos, fills_bits(p.len_code, fills)),
        p.pos == first.pos + fills_bits(p.len_code, fills).len(),
        fills_tell(fills, p.lengths),
        p.lengths.len() <= p.syms,
        forall|i: int| 0 <= i < p.lengths.len() ==> #[trigger] p.lengths[i] <= 15,
    ensures
        ({
            let (all, q) = r;
            &&& forall|i: int| 0 <= i < all.len() ==> fill_writable(p.len_code, #[trigger] all[i])
            &&& shows(data, first.pos, fills_bits(p.len_code, all))
            &&& fills_tell(all, q.lengths)
            &&& q.lengths.len() == p.syms
            &&& forall|i: int| 0 <= i < q.lengths.len() ==> #[trigger] q.lengths[i] <= 15
            &&& q == (Progress {
                state: q.state,
                pos: first.pos + fills_bits(p.len_code, all).len(),
                lengths: q.lengths,
                ..first
            })
            &&& q.state is Lengths
            &&& settled(up_to_next(setup, data, q))
            &&& up_to_next(setup, data, p) == up_to_next(setup, data, q)
        }),
    decreases bits_left(data, p), rank(p.state),
{
    if p.lengths.len() == p.syms {
        (fills, p)
    } else {
        let code = p.len_code;
        let next = lemma_goes_on(setup, data, p);
        lemma_at_lengths(setup, p);
        lemma_symbol_is_there(code, data, p.pos);
        lemma_small_powers();
        let s = symbol_at(code, data, p.pos)->Symbol_0;
        let n = symbol_at(code, data, p.pos)->Symbol_1;
        let m = p.lengths.len() as int;
        let fill = if s < 16 {
            Fill::Length(s as u8)
        } else if s == 16 {
            Fill::Again((3 + read(data, p.pos + n, 2)->0) as int)
        } else if s == 17 {
            Fill::Zeros((3 + read(data, p.pos + n, 3)->0) as int)
        } else {
            Fill::ManyZeros((11 + read(data, p.pos + n, 7)->0) as int)
        };
        let extra = match fill {
            Fill::Length(_) => Seq::<bool>::empty(),
            Fill::Again(n) => plain_number((n - 3) as nat, 2),
            Fill::Zeros(n) => plain_number((n - 3) as nat, 3),
            Fill::ManyZeros(n) => plain_number((n - 11) as nat, 7),
        };
        if s == 16 {
            lemma_number_there(data, p.pos + n, 2);
        } else if s == 17 {
            lemma_number_there(data, p.pos + n, 3);
        } else if s == 18 {
            lemma_number_there(data, p.pos + n, 7);
        }
        lemma_shows_parts(data, p.pos, symbol(code, s), extra);
        lemma_shows_parts(data, first.pos, fills_bits(code, fills), fill_bits(code, fill));
        let all = fills.push(fill);
        assert(all.drop_last() =~= fills);
        assert(next.lengths.take(m) =~= p.lengths);
        assert(fill_tells(fill, m, next.lengths)) by {
            if s == 16 {
                assert(next.lengths[m - 1] == p.lengths.last());
            }
        }
        assert forall|i: int| 0 <= i < next.lengths.len() implies #[trigger] next.lengths[i] <= 15 by {
            if i < m {
                assert(next.lengths[i] == p.lengths[i]);
            } else if s == 16 {
                assert(p.lengths[m - 1] <= 15);
            }
        }
        explain_fills(setup, data, first, all, next)
    }
}

/// The three bits that a block starts with are there.
proof fn lemma_three_there(data: Seq<u8>, pos: int)
    requires
        0 <= pos,
        pos + 3 <= bit_len(data),
    ensures
        shows(data, pos, seq![bit(data, pos) == 1, bit(data, pos + 1) == 1, bit(data, pos + 2) == 1]),
        number(data, pos, 1) == bit(data, pos),
        number(data, pos + 1, 2) == bit(data, pos + 1) + 2 * bit(data, pos + 2),
        bit(data, pos) <= 1,
        bit(data, pos + 1) <= 1,
        bit(data, pos + 2) <= 1,
{
    let part = seq![bit(data, pos) == 1, bit(data, pos + 1) == 1, bit(data, pos + 2) == 1];
    assert forall|i: int| 0 <= i < part.len() implies (bit(data, pos + i) == 1) == #[trigger] part[i] by {
        assert(i == 0 || i == 1 || i == 2);
    }
    assert(number(data, pos + 1, 0) == 0 && number(data, pos + 3, 0) == 0);
    assert(number(data, pos + 2, 1) == bit(data, pos + 2) + 2 * number(data, pos + 3, 0));
    assert(number(data, pos + 1, 2) == bit(data, pos + 1) + 2 * number(data, pos + 2, 1));
}

/// What comes where there is a block that brings its codes along.
#[verifier::spinoff_prover]
#[verifier::rlimit(40)]
proof fn explain_codes(setup: Setup, data: Seq<u8>, p: Progress) -> (r: (Codes, Progress))
    requires
        p.state is Block,
        0 <= p.pos,
        settled(up_to_next(setup, data, p)),
        read(data, p.pos + 1, 2) == Some(2nat),
    ensures
        ({
            let (codes, q) = r;
            let last = read(data, p.pos, 1)->0 != 0;
            &&& codes_possible(codes)
            &&& shows(data, p.pos, seq![last, false, true] + codes_bits(codes))
            &&& q.state is Length
            &&& q.len_code == codes.lits
            &&& q.dist_code == codes.dists
            &&& q.last == last
            &&& q.gzip == p.gzip
            &&& q.start == p.start
            &&& q.out == p.out
            &&& q.pos == p.pos + 3 + codes_bits(codes).len()
            &&& up_to_next(setup, data, p) == up_to_next(setup, data, q)
            &&& settled(up_to_next(setup, data, q))
        }),
{
    let pos = p.pos;
    let one = lemma_goes_on(setup, data, p);
    lemma_at_block(setup, p);
    lemma_three_there(data, pos);
    lemma_small_powers();
    lemma_number_there(data, pos + 3, 5);
    lemma_number_there(data, pos + 8, 5);
    lemma_number_there(data, pos + 13, 4);
    let (stored, two) = explain_code_code(setup, data, one, one);
    let code = two.len_code;
    let given = stored.len() as int;
    assert(code.len() == 19) by {
        lemma_placed_at(stored, stored.len(), 0);
    }
    assert forall|k: int| 0 <= k < 19 implies #[trigger] code[CODE_ORDER@[k] as int] <= 7 && (k >= given
        ==> code[CODE_ORDER@[k] as int] == 0) by {
        lemma_placed_at(stored, stored.len(), k);
        if k < given {
            assert(stored[k] <= 7);
        }
    }
    assert forall|k: int| 0 <= k < stored.len() implies code[CODE_ORDER@[k] as int] == #[trigger] stored[k] by {
        lemma_placed_at(stored, stored.len(), k);
    }
    lemma_code_code_there(data, pos + 17, code, stored, given);
    assert forall|s: int| 0 <= s < code.len() implies #[trigger] code[s] <= 15 by {
        lemma_place_of(s);
    }
    lemma_share_unused(code);
    assert(shows(data, two.pos, Seq::<bool>::empty()));
    let (fills, three) = explain_fills(setup, data, two, Seq::empty(), two);
    let four = lemma_goes_on(setup, data, three);
    lemma_at_lengths(setup, three);
    let (lits, dists) = (four.len_code, four.dist_code);
    assert(lits + dists =~= three.lengths);
    let codes = Codes { code, given, fills, lits, dists };
    assert forall|s: int| 0 <= s < lits.len() implies #[trigger] lits[s] <= 15 by {
        assert(three.lengths[s] == lits[s]);
    }
    assert forall|s: int| 0 <= s < dists.len() implies #[trigger] dists[s] <= 15 by {
        assert(three.lengths[lits.len() + s] == dists[s]);
    }
    lemma_share_unused(lits);
    lemma_share_unused(dists);
    let head = seq![bit(data, pos) == 1, bit(data, pos + 1) == 1, bit(data, pos + 2) == 1];
    assert(head =~= seq![read(data, pos, 1)->0 != 0, false, true]);
    let a = plain_number((lits.len() - 257) as nat, 5);
    let b = plain_number((dists.len() - 1) as nat, 5);
    let c = plain_number((given - 4) as nat, 4);
    let d = code_code_bits(code, given);
    let e = fills_bits(code, fills);
    lemma_shows_parts(data, pos + 17, d, e);
    lemma_shows_parts(data, pos + 13, c, d + e);
    lemma_shows_parts(data, pos + 8, b, c + (d + e));
    lemma_shows_parts(data, pos + 3, a, b + (c + (d + e)));
    lemma_shows_parts(data, pos, head, codes_bits(codes));
    (codes, four)
}

/// What comes where there is a block.
#[verifier::spinoff_prover]
#[verifier::rlimit(40)]
proof fn explain_block(setup: Setup, data: Seq<u8>, p: Progress) -> (r: (Block, bool, Progress))
    requires
        p.state is Block,
        0 <= p.pos,
        settled(up_to_next(setup, data, p)),
    ensures
        ({
            let (block, last, q) = r;
            &&& block_possible(block, p.pos)
            &&& shows(data, p.pos, block_written(block, last))
            &&& block_tells(block, p.out, q.out)
            &&& past_block(setup, p, last, block_written(block, last).len(), q.out, q)
            &&& up_to_next(setup, data, p) == up_to_next(setup, data, q)
        }),
{
    let pos = p.pos;
    let one = lemma_goes_on(setup, data, p);
    lemma_at_block(setup, p);
    lemma_three_there(data, pos);
    let last = read(data, pos, 1)->0 != 0;
    let head = seq![bit(data, pos) == 1, bit(data, pos + 1) == 1, bit(data, pos + 2) == 1];
    let kind = read(data, pos + 1, 2)->0;
    if kind == 0 {
        let two = lemma_goes_on(setup, data, one);
        lemma_at_stored_len(setup, one);
        let from = one.pos;
        lemma_number_there(data, from, 16);
        lemma_number_there(data, from + 16, 16);
        assert(pow2(16) == 0x1_0000) by {
            lemma2_to64();
        }
        assert(two.out + Seq::<u8>::empty() =~= two.out);
        assert(shows(data, two.pos, Seq::<bool>::empty()));
        let (bytes, three) = explain_stored(setup, data, two, Seq::empty(), two);
        let pad = Seq::new((from - pos - 3) as nat, |i: int| bit(data, pos + 3 + i) == 1);
        let block = Block::Stored(pad, bytes);
        assert(head =~= seq![last, false, false]);
        let a = plain_number(bytes.len(), 16);
        let b = plain_number((0xffff - bytes.len()) as nat, 16);
        lemma_shows_parts(data, from, a, b);
        lemma_shows_parts(data, from, a + b, plain_bytes(bytes));
        assert(shows(data, pos + 3, pad));
        lemma_shows_parts(data, pos + 3, pad, a + b + plain_bytes(bytes));
        lemma_shows_parts(data, pos, head, pad + (a + b + plain_bytes(bytes)));
        (block, last, block_ended(setup, three))
    } else if kind == 1 {
        assert(head =~= seq![last, true, false]);
        lemma_usual();
        assert(shows(data, one.pos, Seq::<bool>::empty()));
        let (items, two) = explain_items(setup, data, one, Seq::empty(), one);
        let block = Block::Usual(items);
        lemma_shows_parts(
            data,
            pos,
            head,
            items_bits(usual_lits(), usual_dists(), items) + symbol(usual_lits(), 256),
        );
        (block, last, block_ended(setup, two))
    } else {
        let (codes, two) = explain_codes(setup, data, p);
        assert(shows(data, two.pos, Seq::<bool>::empty()));
        let (items, three) = explain_items(setup, data, two, Seq::empty(), two);
        let block = Block::Own(codes, items);
        let rest = items_bits(codes.lits, codes.dists, items) + symbol(codes.lits, 256);
        lemma_shows_parts(data, pos, seq![last, false, true] + codes_bits(codes), rest);
        assert(block_written(block, last) =~= seq![last, false, true] + codes_bits(codes) + rest);
        (block, last, block_ended(setup, three))
    }
}

/// How much a block adds.
proof fn lemma_block_adds(block: Block, pos: int, before: Seq<u8>, after: Seq<u8>)
    requires
        block_possible(block, pos),
        block_tells(block, before, after),
    ensures
        after.len() == before.len() + block_width(block),
        after.take(before.len() as int) == before,
{
    match block {
        Block::Stored(_, bytes) => {
            assert(after.take(before.len() as int) =~= before);
        },
        _ => {
            let items = block_items(block);
            assert forall|i: int| 0 <= i < items.len() implies possible(
                #[trigger] items[i],
            ) by {}
            lemma_items_tell_more(items, before, after);
            assert(after.take(before.len() as int) =~= before);
        },
    }
}

/// What comes where there are blocks.
pub proof fn explain_blocks(
    setup: Setup,
    data: Seq<u8>,
    first: Progress,
    blocks: Seq<Block>,
    p: Progress,
) -> (r: (Seq<Block>, Progress))
    requires
        p.state is Block,
        first.state is Block,
        0 <= first.pos,
        p.gzip == first.gzip,
        p.start == first.start,
        settled(up_to_next(setup, data, p)),
        blocks_possible(blocks, first.pos),
        shows(data, first.pos, blocks_written(blocks, false)),
        p.pos == first.pos + blocks_written(blocks, false).len(),
        blocks_tell(blocks, first.out, p.out),
    ensures
        ({
            let (all, q) = r;
            &&& all.len() > 0
            &&& blocks_possible(all, first.pos)
            &&& shows(data, first.pos, blocks_written(all, true))
            &&& blocks_tell(all, first.out, q.out)
            &&& past_block(setup, first, true, blocks_written(all, true).len(), q.out, q)
            &&& up_to_next(setup, data, p) == up_to_next(setup, data, q)
        }),
    decreases bit_len(data) - p.pos,
{
    let (block, last, q) = explain_block(setup, data, p);
    let all = blocks.push(block);
    assert(all.drop_last() =~= blocks);
    lemma_block_adds(block, p.pos, p.out, q.out);
    lemma_shows_parts(data, first.pos, blocks_written(blocks, false), block_written(block, last));
    assert(block_written(block, last).len() >= 3);
    if last {
        (all, q)
    } else {
        explain_blocks(setup, data, first, all, q)
    }
}

} // verus!
