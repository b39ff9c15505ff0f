//! What comes of streams that are not what they should be, and of streams that
//! are not all there yet.

use vstd::arithmetic::power2::{lemma2_to64, pow2};
use vstd::prelude::*;

use crate::bits::{align, bit_len};
use crate::canon::{
    lemma_bytes_shown, lemma_distance_table, lemma_length_table, lemma_number_shown,
    lemma_share_unused, lemma_shows_parts, lemma_symbol_is_there, lemma_symbol_shown, lemma_usual,
};
use crate::decoding::{
    advance, lemma_at_block, lemma_at_code_lengths, lemma_at_distance, lemma_at_end,
    lemma_at_length, lemma_at_lengths, lemma_at_member, lemma_at_start, lemma_at_stored,
    lemma_at_stored_len, marked, origin, placed, read, step, Kind, Progress, Setup, State,
};
use crate::error::Error;
use crate::explained::lemma_copied_tells;
use crate::fixed::lemma_fixed_complete;
use crate::framing::{lemma_byte_read, lemma_gzip_header, lemma_zlib_bytes, lemma_zlib_header};
use crate::huffman::{lemma_symbol_bits, symbol_at};
use crate::output::{copied, lemma_copied};
use crate::roundtrip::lemma_next;
use crate::single::{lemma_beyond, up_to_next};
use crate::steps::{lemma_advance_forward, lemma_dist_range, lemma_length_range, lemma_small_powers};
use crate::syntax::{
    block_dists, block_items, block_lits, block_possible, blocks_possible, blocks_tell,
    blocks_written, code_code_bits, codes, codes_bits, distance, fill_bits, fill_symbol,
    fill_width, fill_writable, fills_bits, fills_tell, header_bytes, header_possible, item_bits,
    items_bits, items_tell, plain_bytes, plain_number, reached, shows, symbol, usable, usual_dists,
    usual_lits, whole, width, writable, zlib_header_possible, Block, Codes, Fill, Header, Item,
    CODE_ORDER, DISTANCE_BITS, LENGTHS, LENGTH_BITS,
};
use crate::understood::{
    lemma_blocks, lemma_code_code, lemma_codes, lemma_fills, lemma_items, lemma_items_tell_more,
    lemma_place_of, lemma_placed_is, lemma_three, readable,
};

verus! {

/// Whether `head` is what may come before the blocks of a stream.
pub open spec fn opens(kind: Kind, head: Seq<u8>) -> bool {
    match kind {
        Kind::Raw => head.len() == 0,
        Kind::Zlib => head.len() == 2 && zlib_header_possible(head[0], head[1]),
        Kind::Gzip => exists|header: Header| header_possible(header) && head == #[trigger] header_bytes(header),
        Kind::Detect => false,
    }
}

/// Whether `data` has `blocks` after `head`, none of which is the last, that take
/// the output from `before` to `after`, and an output takes that.
pub open spec fn so_far(
    setup: Setup,
    data: Seq<u8>,
    head: Seq<u8>,
    blocks: Seq<Block>,
    before: Seq<u8>,
    after: Seq<u8>,
) -> bool {
    &&& opens(setup.kind, head)
    &&& head.is_prefix_of(data)
    &&& blocks_possible(blocks, 8 * head.len() as int)
    &&& blocks_tell(blocks, before, after)
    &&& shows(data, 8 * head.len() as int, blocks_written(blocks, false))
    &&& after.len() <= setup.terms.most
    &&& after.len() > 0 ==> setup.terms.reach != 0
    &&& reached(blocks, setup.terms.reach)
}

/// Where in the data `blocks` end.
pub open spec fn end_of_blocks(head: Seq<u8>, blocks: Seq<Block>) -> int {
    8 * head.len() as int + blocks_written(blocks, false).len()
}

/// A block that has not ended: its codes, and some items.
pub open spec fn block_begun(block: Block, last: bool) -> Seq<bool> {
    match block {
        Block::Own(codes, items) => seq![last, false, true] + codes_bits(codes) + items_bits(
            codes.lits,
            codes.dists,
            items,
        ),
        _ => seq![last, true, false] + items_bits(usual_lits(), usual_dists(), block_items(block)),
    }
}

/// Whether decoding fails with `error`, once it has taken the output from
/// `before` to `after`.
pub open spec fn fails(setup: Setup, data: Seq<u8>, before: Seq<u8>, after: Seq<u8>, error: Error) -> bool {
    let end = advance(setup, data, origin(before));
    end.state == State::Failed(error) && end.out == after
}

/// The first block comes after the header.
proof fn lemma_opened(setup: Setup, data: Seq<u8>, head: Seq<u8>, out: Seq<u8>) -> (q: Progress)
    requires
        opens(setup.kind, head),
        head.is_prefix_of(data),
    ensures
        up_to_next(setup, data, origin(out)) == up_to_next(setup, data, q),
        q.state is Block,
        q.pos == 8 * head.len(),
        q.out == out,
{
    let p = origin(out);
    match setup.kind {
        Kind::Zlib => {
            assert(data[0] == head[0] && data[1] == head[1]);
            lemma_zlib_header(setup, data, out)
        },
        Kind::Gzip => {
            let header = choose|header: Header| header_possible(header) && head == #[trigger] header_bytes(header);
            lemma_gzip_header(setup, data, header, out)
        },
        _ => {
            lemma_at_start(setup, p);
            lemma_next(setup, data, p);
            Progress { state: State::Block, ..p }
        },
    }
}

/// What comes after the blocks that are there.
proof fn lemma_so_far(
    setup: Setup,
    data: Seq<u8>,
    head: Seq<u8>,
    blocks: Seq<Block>,
    before: Seq<u8>,
    after: Seq<u8>,
) -> (q: Progress)
    requires
        so_far(setup, data, head, blocks, before, after),
    ensures
        up_to_next(setup, data, origin(before)) == up_to_next(setup, data, q),
        q.state is Block,
        q.pos == end_of_blocks(head, blocks),
        q.out == after,
{
    let p = lemma_opened(setup, data, head, before);
    lemma_blocks(setup, data, blocks, false, p, after)
}

/// A step that fails is the last.
proof fn lemma_failed(setup: Setup, data: Seq<u8>, out: Seq<u8>, q: Progress, error: Error)
    requires
        up_to_next(setup, data, origin(out)) == up_to_next(setup, data, q),
        q.state !is Next,
        step(setup, data, q) matches Some(r) && r.state == State::Failed(error),
    ensures
        fails(setup, data, out, step(setup, data, q)->0.out, error),
{
    let r = step(setup, data, q)->0;
    lemma_next(setup, data, q);
    lemma_at_end(setup, r);
    lemma_next(setup, data, r);
    lemma_beyond(setup, data, origin(out));
}

/// What is output is at least what was got to.
proof fn lemma_out(setup: Setup, data: Seq<u8>, out: Seq<u8>, q: Progress)
    requires
        up_to_next(setup, data, origin(out)) == up_to_next(setup, data, q),
        0 <= q.pos,
    ensures
        q.out.is_prefix_of(advance(setup, data, origin(out)).out),
{
    lemma_beyond(setup, data, origin(out));
    lemma_beyond(setup, data, q);
    lemma_advance_forward(setup, data, q);
}

/// What comes after the items of a block that are there.
proof fn lemma_begun(
    setup: Setup,
    data: Seq<u8>,
    block: Block,
    last: bool,
    p: Progress,
    after: Seq<u8>,
) -> (q: Progress)
    requires
        p.state is Block,
        block !is Stored,
        block_possible(block, p.pos),
        shows(data, p.pos, block_begun(block, last)),
        items_tell(block_items(block), p.out, after),
        after.len() <= setup.terms.most,
        after.len() > 0 ==> setup.terms.reach != 0,
        forall|i: int|
            0 <= i < block_items(block).len() ==> distance(#[trigger] block_items(block)[i])
                <= setup.terms.reach,
    ensures
        up_to_next(setup, data, p) == up_to_next(setup, data, q),
        q.state is Length,
        q.pos == p.pos + block_begun(block, last).len(),
        q.out == after,
        q.len_code == block_lits(block),
        q.dist_code == block_dists(block),
        readable(q.len_code),
        readable(q.dist_code),
{
    let items = block_items(block);
    assert forall|i: int| 0 <= i < items.len() implies writable(
        block_lits(block),
        block_dists(block),
        #[trigger] items[i],
    ) by {}
    lemma_items_tell_more(items, p.out, after);
    match block {
        Block::Own(codes, _) => {
            let rest = items_bits(codes.lits, codes.dists, items);
            lemma_shows_parts(data, p.pos, seq![last, false, true] + codes_bits(codes), rest);
            let one = lemma_codes(setup, data, codes, last, p);
            lemma_items(setup, data, items, one, after);
            Progress { pos: one.pos + rest.len(), out: after, ..one }
        },
        _ => {
            let head = seq![last, true, false];
            let rest = items_bits(usual_lits(), usual_dists(), items);
            lemma_usual();
            lemma_fixed_complete();
            lemma_shows_parts(data, p.pos, head, rest);
            lemma_three(data, p.pos, last, true, false);
            lemma_at_block(setup, p);
            lemma_next(setup, data, p);
            let one = Progress {
                state: State::Length,
                pos: p.pos + 3,
                last,
                len_code: usual_lits(),
                dist_code: usual_dists(),
                ..p
            };
            assert(up_to_next(setup, data, p) == up_to_next(setup, data, one));
            lemma_items(setup, data, items, one, after);
            Progress { pos: one.pos + rest.len(), out: after, ..one }
        },
    }
}

/// Whether `data` has, after `head` and `blocks`, a block that is not stored, as
/// far as some of its items, which take the output to `after`.
pub open spec fn within(
    setup: Setup,
    data: Seq<u8>,
    head: Seq<u8>,
    blocks: Seq<Block>,
    block: Block,
    last: bool,
    before: Seq<u8>,
    middle: Seq<u8>,
    after: Seq<u8>,
) -> bool {
    &&& so_far(setup, data, head, blocks, before, middle)
    &&& block !is Stored
    &&& block_possible(block, end_of_blocks(head, blocks))
    &&& shows(data, end_of_blocks(head, blocks), block_begun(block, last))
    &&& items_tell(block_items(block), middle, after)
    &&& after.len() <= setup.terms.most
    &&& after.len() > 0 ==> setup.terms.reach != 0
    &&& reached(seq![block], setup.terms.reach)
}

/// Where in the data the items end.
pub open spec fn end_of_items(head: Seq<u8>, blocks: Seq<Block>, block: Block, last: bool) -> int {
    end_of_blocks(head, blocks) + block_begun(block, last).len()
}

proof fn lemma_within(
    setup: Setup,
    data: Seq<u8>,
    head: Seq<u8>,
    blocks: Seq<Block>,
    block: Block,
    last: bool,
    before: Seq<u8>,
    middle: Seq<u8>,
    after: Seq<u8>,
) -> (q: Progress)
    requires
        within(setup, data, head, blocks, block, last, before, middle, after),
    ensures
        up_to_next(setup, data, origin(before)) == up_to_next(setup, data, q),
        q.state is Length,
        q.pos == end_of_items(head, blocks, block, last),
        q.out == after,
        q.len_code == block_lits(block),
        q.dist_code == block_dists(block),
        readable(q.len_code),
        readable(q.dist_code),
{
    let p = lemma_so_far(setup, data, head, blocks, before, middle);
    assert(seq![block][0] == block);
    assert forall|i: int| 0 <= i < block_items(block).len() implies distance(
        #[trigger] block_items(block)[i],
    ) <= setup.terms.reach by {
        assert(distance(block_items(seq![block][0])[i]) <= setup.terms.reach);
    }
    lemma_begun(setup, data, block, last, p, after)
}

/// What items stand for is output as soon as they are there, whatever is missing
/// after them.
pub proof fn output_is_prompt(
    setup: Setup,
    data: Seq<u8>,
    head: Seq<u8>,
    blocks: Seq<Block>,
    block: Block,
    last: bool,
    before: Seq<u8>,
    middle: Seq<u8>,
    after: Seq<u8>,
)
    requires
        within(setup, data, head, blocks, block, last, before, middle, after),
    ensures
        after.is_prefix_of(advance(setup, data, origin(before)).out),
{
    let q = lemma_within(setup, data, head, blocks, block, last, before, middle, after);
    lemma_out(setup, data, before, q);
}

/// So are stored bytes, as many as are there of `len`.
pub proof fn stored_bytes_are_prompt(
    setup: Setup,
    data: Seq<u8>,
    head: Seq<u8>,
    blocks: Seq<Block>,
    last: bool,
    pad: Seq<bool>,
    len: nat,
    bytes: Seq<u8>,
    before: Seq<u8>,
    after: Seq<u8>,
)
    requires
        so_far(setup, data, head, blocks, before, after),
        bytes.len() <= len < 0x1_0000,
        pad.len() < 8,
        (end_of_blocks(head, blocks) + 3 + pad.len()) % 8 == 0,
        shows(
            data,
            end_of_blocks(head, blocks),
            seq![last, false, false] + (pad + (plain_number(len, 16) + plain_number((0xffff - len) as nat, 16)
                + plain_bytes(bytes))),
        ),
        after.len() + bytes.len() <= setup.terms.most,
        setup.terms.reach != 0,
    ensures
        (after + bytes).is_prefix_of(advance(setup, data, origin(before)).out),
{
    let q = lemma_so_far(setup, data, head, blocks, before, after);
    let (a, b, c) = (plain_number(len, 16), plain_number((0xffff - len) as nat, 16), plain_bytes(bytes));
    lemma_shows_parts(data, q.pos, seq![last, false, false], pad + (a + b + c));
    lemma_shows_parts(data, q.pos + 3, pad, a + b + c);
    let pos = q.pos + 3 + pad.len();
    lemma_shows_parts(data, pos, a + b, c);
    lemma_shows_parts(data, pos, a, b);
    lemma_three(data, q.pos, last, false, false);
    assert(align(q.pos + 3) == pos);
    lemma_at_block(setup, q);
    lemma_next(setup, data, q);
    let one = Progress { state: State::StoredLen, pos, last, ..q };
    assert(pow2(16) == 0x1_0000) by {
        lemma2_to64();
    }
    lemma_number_shown(data, pos, len, 16);
    lemma_number_shown(data, pos + 16, (0xffff - len) as nat, 16);
    lemma_at_stored_len(setup, one);
    lemma_next(setup, data, one);
    let two = Progress { state: State::Stored(len as u16), pos: pos + 32, ..one };
    assert(up_to_next(setup, data, one) == up_to_next(setup, data, two));
    assert(after + bytes.take(0) =~= after);
    let r = lemma_some_stored(setup, data, len, bytes, 0, pos + 32, after, two);
    lemma_out(setup, data, before, r);
}

proof fn lemma_some_stored(
    setup: Setup,
    data: Seq<u8>,
    len: nat,
    bytes: Seq<u8>,
    i: int,
    pos: int,
    before: Seq<u8>,
    p: Progress,
) -> (q: Progress)
    requires
        0 <= i <= bytes.len() <= len < 0x1_0000,
        shows(data, pos, plain_bytes(bytes)),
        p.state == State::Stored((len - i) as u16),
        p.pos == pos + 8 * i,
        p.out == before + bytes.take(i),
        before.len() + bytes.len() <= setup.terms.most,
        setup.terms.reach != 0,
    ensures
        up_to_next(setup, data, p) == up_to_next(setup, data, q),
        q.out == before + bytes,
        0 <= q.pos,
    decreases bytes.len() - i,
{
    lemma_bytes_shown(data, pos, bytes);
    if i < bytes.len() {
        lemma_at_stored(setup, p);
        lemma_next(setup, data, p);
        let q = Progress {
            state: State::Stored((len - i - 1) as u16),
            pos: p.pos + 8,
            out: p.out.push(bytes[i]),
            ..p
        };
        assert(read(data, pos + 8 * i, 8) == Some(bytes[i] as nat));
        assert(q.out =~= before + bytes.take(i + 1));
        lemma_some_stored(setup, data, len, bytes, i + 1, pos, before, q)
    } else {
        assert(bytes.take(i) =~= bytes);
        p
    }
}

/// There is a fourth kind of block, that nothing was ever made of.
pub proof fn reserved_blocks_fail(
    setup: Setup,
    data: Seq<u8>,
    head: Seq<u8>,
    blocks: Seq<Block>,
    last: bool,
    before: Seq<u8>,
    after: Seq<u8>,
)
    requires
        so_far(setup, data, head, blocks, before, after),
        shows(data, end_of_blocks(head, blocks), seq![last, true, true]),
    ensures
        fails(setup, data, before, after, Error::InvalidBlock),
{
    let q = lemma_so_far(setup, data, head, blocks, before, after);
    lemma_three(data, q.pos, last, true, true);
    lemma_at_block(setup, q);
    lemma_failed(setup, data, before, q, Error::InvalidBlock);
}

/// The length of a stored block is followed by its complement.
pub proof fn wrong_lengths_fail(
    setup: Setup,
    data: Seq<u8>,
    head: Seq<u8>,
    blocks: Seq<Block>,
    last: bool,
    pad: Seq<bool>,
    len: nat,
    other: nat,
    before: Seq<u8>,
    after: Seq<u8>,
)
    requires
        so_far(setup, data, head, blocks, before, after),
        len < 0x1_0000,
        other < 0x1_0000,
        len + other != 0xffff,
        pad.len() < 8,
        (end_of_blocks(head, blocks) + 3 + pad.len()) % 8 == 0,
        shows(
            data,
            end_of_blocks(head, blocks),
            seq![last, false, false] + (pad + (plain_number(len, 16) + plain_number(other, 16))),
        ),
    ensures
        fails(setup, data, before, after, Error::InvalidBlock),
{
    let q = lemma_so_far(setup, data, head, blocks, before, after);
    let (a, b) = (plain_number(len, 16), plain_number(other, 16));
    lemma_shows_parts(data, q.pos, seq![last, false, false], pad + (a + b));
    lemma_shows_parts(data, q.pos + 3, pad, a + b);
    let pos = q.pos + 3 + pad.len();
    lemma_shows_parts(data, pos, a, b);
    lemma_three(data, q.pos, last, false, false);
    assert(align(q.pos + 3) == pos);
    lemma_at_block(setup, q);
    lemma_next(setup, data, q);
    let one = Progress { state: State::StoredLen, pos, last, ..q };
    assert(pow2(16) == 0x1_0000) by {
        lemma2_to64();
    }
    lemma_number_shown(data, pos, len, 16);
    lemma_number_shown(data, pos + 16, other, 16);
    lemma_at_stored_len(setup, one);
    lemma_failed(setup, data, before, one, Error::InvalidBlock);
}

/// A block brings along no more than 286 and 30 lengths.
pub proof fn too_many_lengths_fail(
    setup: Setup,
    data: Seq<u8>,
    head: Seq<u8>,
    blocks: Seq<Block>,
    last: bool,
    lits: nat,
    dists: nat,
    given: nat,
    before: Seq<u8>,
    after: Seq<u8>,
)
    requires
        so_far(setup, data, head, blocks, before, after),
        257 <= lits < 257 + 32,
        1 <= dists < 1 + 32,
        4 <= given < 4 + 16,
        lits > 286 || dists > 30,
        shows(
            data,
            end_of_blocks(head, blocks),
            seq![last, false, true] + (plain_number((lits - 257) as nat, 5) + (plain_number(
                (dists - 1) as nat,
                5,
            ) + plain_number((given - 4) as nat, 4))),
        ),
    ensures
        fails(setup, data, before, after, Error::InvalidBlock),
{
    let q = lemma_so_far(setup, data, head, blocks, before, after);
    let a = plain_number((lits - 257) as nat, 5);
    let b = plain_number((dists - 1) as nat, 5);
    let c = plain_number((given - 4) as nat, 4);
    lemma_shows_parts(data, q.pos, seq![last, false, true], a + (b + c));
    lemma_shows_parts(data, q.pos + 3, a, b + c);
    lemma_shows_parts(data, q.pos + 8, b, c);
    lemma_three(data, q.pos, last, false, true);
    lemma_small_powers();
    lemma_number_shown(data, q.pos + 3, (lits - 257) as nat, 5);
    lemma_number_shown(data, q.pos + 8, (dists - 1) as nat, 5);
    lemma_number_shown(data, q.pos + 13, (given - 4) as nat, 4);
    lemma_at_block(setup, q);
    lemma_failed(setup, data, before, q, Error::InvalidBlock);
}

/// Whether there can be such codes, as far as the code that lengths are written
/// with goes.
pub open spec fn code_given(codes: Codes) -> bool {
    &&& codes.code.len() == 19
    &&& 4 <= codes.given <= 19
    &&& forall|i: int| 0 <= i < 19 ==> #[trigger] codes.code[CODE_ORDER@[i] as int] <= 7
    &&& forall|i: int| codes.given <= i < 19 ==> #[trigger] codes.code[CODE_ORDER@[i] as int] == 0
    &&& 257 <= codes.lits.len() <= 286
    &&& 1 <= codes.dists.len() <= 30
}

/// What comes after the code that lengths are written with.
proof fn lemma_code_given(setup: Setup, data: Seq<u8>, codes: Codes, last: bool, p: Progress) -> (q: Progress)
    requires
        p.state is Block,
        code_given(codes),
        ({
            let a = plain_number((codes.lits.len() - 257) as nat, 5);
            let b = plain_number((codes.dists.len() - 1) as nat, 5);
            let c = plain_number((codes.given - 4) as nat, 4);
            let d = code_code_bits(codes.code, codes.given);
            shows(data, p.pos, seq![last, false, true] + (a + (b + (c + d))))
        }),
    ensures
        up_to_next(setup, data, p) == up_to_next(setup, data, q),
        q.state is CodeLengths,
        q.pos == p.pos + 17 + 3 * codes.given,
        q.out == p.out,
        q.code_syms == codes.given,
        q.lengths.len() == codes.given,
        q.len_syms == codes.lits.len(),
        q.syms == codes.lits.len() + codes.dists.len(),
        placed(q.lengths, q.lengths.len()) == codes.code,
        forall|s: int| 0 <= s < codes.code.len() ==> #[trigger] codes.code[s] <= 15,
{
    let head = seq![last, false, true];
    let a = plain_number((codes.lits.len() - 257) as nat, 5);
    let b = plain_number((codes.dists.len() - 1) as nat, 5);
    let c = plain_number((codes.given - 4) as nat, 4);
    let d = code_code_bits(codes.code, codes.given);
    let pos = p.pos;
    lemma_shows_parts(data, pos, head, a + (b + (c + d)));
    lemma_shows_parts(data, pos + 3, a, b + (c + d));
    lemma_shows_parts(data, pos + 8, b, c + d);
    lemma_shows_parts(data, pos + 13, c, d);
    lemma_three(data, pos, last, false, true);
    lemma_small_powers();
    lemma_number_shown(data, pos + 3, (codes.lits.len() - 257) as nat, 5);
    lemma_number_shown(data, pos + 8, (codes.dists.len() - 1) as nat, 5);
    lemma_number_shown(data, pos + 13, (codes.given - 4) as nat, 4);
    lemma_at_block(setup, p);
    lemma_next(setup, data, p);
    let one = Progress {
        state: State::CodeLengths(0),
        pos: pos + 17,
        last,
        len_syms: codes.lits.len(),
        syms: codes.lits.len() + codes.dists.len(),
        code_syms: codes.given as nat,
        lengths: Seq::empty(),
        ..p
    };
    assert(up_to_next(setup, data, p) == up_to_next(setup, data, one));
    lemma_code_code(setup, data, codes.code, codes.given, codes.given, one);
    let stored = Seq::new(codes.given as nat, |k: int| codes.code[CODE_ORDER@[k] as int]);
    lemma_placed_is(stored, codes.code, codes.given);
    assert forall|s: int| 0 <= s < codes.code.len() implies #[trigger] codes.code[s] <= 15 by {
        let k = lemma_place_of(s);
        assert(codes.code[CODE_ORDER@[k] as int] <= 7);
    }
    Progress {
        state: State::CodeLengths(codes.given as usize),
        pos: pos + 17 + d.len(),
        lengths: stored,
        ..one
    }
}

/// The code that lengths are written with is whole.
pub proof fn partial_code_codes_fail(
    setup: Setup,
    data: Seq<u8>,
    head: Seq<u8>,
    blocks: Seq<Block>,
    last: bool,
    codes: Codes,
    before: Seq<u8>,
    after: Seq<u8>,
)
    requires
        so_far(setup, data, head, blocks, before, after),
        code_given(codes),
        !whole(codes.code),
        ({
            let a = plain_number((codes.lits.len() - 257) as nat, 5);
            let b = plain_number((codes.dists.len() - 1) as nat, 5);
            let c = plain_number((codes.given - 4) as nat, 4);
            let d = code_code_bits(codes.code, codes.given);
            shows(data, end_of_blocks(head, blocks), seq![last, false, true] + (a + (b + (c + d))))
        }),
    ensures
        fails(setup, data, before, after, Error::InvalidCode),
{
    let p = lemma_so_far(setup, data, head, blocks, before, after);
    let q = lemma_code_given(setup, data, codes, last, p);
    lemma_share_unused(codes.code);
    lemma_at_code_lengths(setup, q);
    lemma_failed(setup, data, before, q, Error::InvalidCode);
}

/// What comes after some of the lengths.
proof fn lemma_lengths_so_far(
    setup: Setup,
    data: Seq<u8>,
    codes: Codes,
    fills: Seq<Fill>,
    lengths: Seq<u8>,
    last: bool,
    p: Progress,
) -> (q: Progress)
    requires
        p.state is Block,
        code_given(codes),
        whole(codes.code),
        forall|i: int| 0 <= i < fills.len() ==> fill_writable(codes.code, #[trigger] fills[i]),
        fills_tell(fills, lengths),
        lengths.len() <= codes.lits.len() + codes.dists.len(),
        shows(data, p.pos, codes_begun(codes, fills, last)),
    ensures
        up_to_next(setup, data, p) == up_to_next(setup, data, q),
        q.state is Lengths,
        q.pos == p.pos + codes_begun(codes, fills, last).len(),
        q.len_code == codes.code,
        q.lengths == lengths,
        q.out == p.out,
        q.len_syms == codes.lits.len(),
        q.syms == codes.lits.len() + codes.dists.len(),
        readable(codes.code),
        forall|s: int| 0 <= s < lengths.len() ==> #[trigger] lengths[s] <= 15,
{
    let a = plain_number((codes.lits.len() - 257) as nat, 5);
    let b = plain_number((codes.dists.len() - 1) as nat, 5);
    let c = plain_number((codes.given - 4) as nat, 4);
    let d = code_code_bits(codes.code, codes.given);
    let e = fills_bits(codes.code, fills);
    let first = seq![last, false, true] + (a + (b + (c + d)));
    lemma_shows_parts(data, p.pos, first, e);
    let one = lemma_code_given(setup, data, codes, last, p);
    assert(d.len() == 3 * codes.given) by {
        lemma_code_code_len(codes.code, codes.given);
    }
    lemma_share_unused(codes.code);
    lemma_at_code_lengths(setup, one);
    lemma_next(setup, data, one);
    let two = Progress { state: State::Lengths(0), len_code: codes.code, lengths: Seq::empty(), ..one };
    assert(up_to_next(setup, data, one) == up_to_next(setup, data, two));
    lemma_fills(setup, data, fills, two, lengths);
    Progress {
        state: State::Lengths(lengths.len() as usize),
        pos: two.pos + e.len(),
        lengths,
        ..two
    }
}

proof fn lemma_code_code_len(code: Seq<u8>, n: int)
    requires
        0 <= n,
    ensures
        code_code_bits(code, n).len() == 3 * n,
    decreases n,
{
    if n > 0 {
        lemma_code_code_len(code, n - 1);
    }
}

/// The codes of a block, as far as some of the ways in which their lengths are
/// written down.
pub open spec fn codes_begun(codes: Codes, fills: Seq<Fill>, last: bool) -> Seq<bool> {
    let a = plain_number((codes.lits.len() - 257) as nat, 5);
    let b = plain_number((codes.dists.len() - 1) as nat, 5);
    let c = plain_number((codes.given - 4) as nat, 4);
    let d = code_code_bits(codes.code, codes.given);
    seq![last, false, true] + (a + (b + (c + d))) + fills_bits(codes.code, fills)
}

/// Codes for data are usable, and there is an end to it.
pub proof fn unusable_codes_fail(
    setup: Setup,
    data: Seq<u8>,
    head: Seq<u8>,
    blocks: Seq<Block>,
    last: bool,
    codes: Codes,
    before: Seq<u8>,
    after: Seq<u8>,
)
    requires
        so_far(setup, data, head, blocks, before, after),
        code_given(codes),
        whole(codes.code),
        forall|i: int| 0 <= i < codes.fills.len() ==> fill_writable(codes.code, #[trigger] codes.fills[i]),
        fills_tell(codes.fills, codes.lits + codes.dists),
        shows(data, end_of_blocks(head, blocks), codes_begun(codes, codes.fills, last)),
        codes.lits[256] == 0 || !usable(codes.lits) || !usable(codes.dists),
    ensures
        fails(setup, data, before, after, Error::InvalidCode),
{
    let p = lemma_so_far(setup, data, head, blocks, before, after);
    let all = codes.lits + codes.dists;
    let q = lemma_lengths_so_far(setup, data, codes, codes.fills, all, last, p);
    assert forall|s: int| 0 <= s < codes.lits.len() implies #[trigger] codes.lits[s] <= 15 by {
        assert(all[s] == codes.lits[s]);
    }
    assert forall|s: int| 0 <= s < codes.dists.len() implies #[trigger] codes.dists[s] <= 15 by {
        assert(all[codes.lits.len() + s] == codes.dists[s]);
    }
    lemma_share_unused(codes.lits);
    lemma_share_unused(codes.dists);
    assert(all.take(codes.lits.len() as int) =~= codes.lits);
    assert(all.skip(codes.lits.len() as int) =~= codes.dists);
    assert(all[256] == codes.lits[256]);
    lemma_at_lengths(setup, q);
    lemma_failed(setup, data, before, q, Error::InvalidCode);
}

/// Nothing can be repeated before there is anything, and no more lengths can be
/// written than were announced.
pub proof fn wrong_fills_fail(
    setup: Setup,
    data: Seq<u8>,
    head: Seq<u8>,
    blocks: Seq<Block>,
    last: bool,
    codes: Codes,
    fills: Seq<Fill>,
    lengths: Seq<u8>,
    fill: Fill,
    before: Seq<u8>,
    after: Seq<u8>,
)
    requires
        so_far(setup, data, head, blocks, before, after),
        code_given(codes),
        whole(codes.code),
        forall|i: int| 0 <= i < fills.len() ==> fill_writable(codes.code, #[trigger] fills[i]),
        fills_tell(fills, lengths),
        lengths.len() < codes.lits.len() + codes.dists.len(),
        fill_writable(codes.code, fill),
        shows(
            data,
            end_of_blocks(head, blocks),
            codes_begun(codes, fills, last) + fill_bits(codes.code, fill),
        ),
        (fill is Again && lengths.len() == 0) || lengths.len() + fill_width(fill)
            > codes.lits.len() + codes.dists.len(),
    ensures
        fails(setup, data, before, after, Error::InvalidCode),
{
    let p = lemma_so_far(setup, data, head, blocks, before, after);
    lemma_shows_parts(
        data,
        p.pos,
        codes_begun(codes, fills, last),
        fill_bits(codes.code, fill),
    );
    let q = lemma_lengths_so_far(setup, data, codes, fills, lengths, last, p);
    let s = fill_symbol(fill);
    let a = symbol(codes.code, s);
    let b = match fill {
        Fill::Length(_) => Seq::<bool>::empty(),
        Fill::Again(n) => plain_number((n - 3) as nat, 2),
        Fill::Zeros(n) => plain_number((n - 3) as nat, 3),
        Fill::ManyZeros(n) => plain_number((n - 11) as nat, 7),
    };
    lemma_shows_parts(data, q.pos, a, b);
    lemma_symbol_shown(codes.code, data, q.pos, s);
    lemma_small_powers();
    match fill {
        Fill::Length(_) => {},
        Fill::Again(n) => {
            lemma_number_shown(data, q.pos + a.len(), (n - 3) as nat, 2);
        },
        Fill::Zeros(n) => {
            lemma_number_shown(data, q.pos + a.len(), (n - 3) as nat, 3);
        },
        Fill::ManyZeros(n) => {
            lemma_number_shown(data, q.pos + a.len(), (n - 11) as nat, 7);
        },
    }
    lemma_at_lengths(setup, q);
    lemma_failed(setup, data, before, q, Error::InvalidCode);
}

/// The last two symbols of the usual code for lengths stand for nothing.
pub proof fn unused_lengths_fail(
    setup: Setup,
    data: Seq<u8>,
    head: Seq<u8>,
    blocks: Seq<Block>,
    block: Block,
    last: bool,
    before: Seq<u8>,
    middle: Seq<u8>,
    after: Seq<u8>,
    s: int,
)
    requires
        within(setup, data, head, blocks, block, last, before, middle, after),
        block is Usual,
        s == 286 || s == 287,
        shows(data, end_of_items(head, blocks, block, last), symbol(usual_lits(), s)),
    ensures
        fails(setup, data, before, after, Error::InvalidCode),
{
    let q = lemma_within(setup, data, head, blocks, block, last, before, middle, after);
    lemma_usual();
    lemma_symbol_shown(usual_lits(), data, q.pos, s);
    lemma_at_length(setup, q);
    lemma_failed(setup, data, before, q, Error::InvalidCode);
}

/// What comes where a distance is to come.
proof fn lemma_distance_due(
    setup: Setup,
    data: Seq<u8>,
    q: Progress,
    s: int,
    more: nat,
    rest: Seq<bool>,
) -> (r: Progress)
    requires
        q.state is Length,
        readable(q.len_code),
        0 <= s < 29,
        more < pow2(LENGTH_BITS@[s] as nat),
        codes(q.len_code, 257 + s),
        shows(data, q.pos, symbol(q.len_code, 257 + s) + plain_number(more, LENGTH_BITS@[s] as nat) + rest),
    ensures
        up_to_next(setup, data, q) == up_to_next(setup, data, r),
        r.state is Distance,
        r.dist_code == q.dist_code,
        r.out == q.out,
        r.pos == q.pos + (symbol(q.len_code, 257 + s) + plain_number(more, LENGTH_BITS@[s] as nat)).len(),
        shows(data, r.pos, rest),
        r.state->Distance_0 == LENGTHS@[s] + more,
{
    let a = symbol(q.len_code, 257 + s);
    let b = plain_number(more, LENGTH_BITS@[s] as nat);
    lemma_shows_parts(data, q.pos, a + b, rest);
    lemma_shows_parts(data, q.pos, a, b);
    lemma_symbol_shown(q.len_code, data, q.pos, 257 + s);
    lemma_number_shown(data, q.pos + a.len(), more, LENGTH_BITS@[s] as nat);
    lemma_length_table(s);
    lemma_length_range(s, more);
    lemma_at_length(setup, q);
    lemma_next(setup, data, q);
    Progress {
        state: State::Distance((LENGTHS@[s] + more) as u32),
        pos: q.pos + (a + b).len(),
        ..q
    }
}

/// Neither do the last two symbols of the usual code for distances.
pub proof fn unused_distances_fail(
    setup: Setup,
    data: Seq<u8>,
    head: Seq<u8>,
    blocks: Seq<Block>,
    block: Block,
    last: bool,
    before: Seq<u8>,
    middle: Seq<u8>,
    after: Seq<u8>,
    s: int,
    more: nat,
    t: int,
)
    requires
        within(setup, data, head, blocks, block, last, before, middle, after),
        block is Usual,
        0 <= s < 29,
        more < pow2(LENGTH_BITS@[s] as nat),
        t == 30 || t == 31,
        shows(
            data,
            end_of_items(head, blocks, block, last),
            symbol(usual_lits(), 257 + s) + plain_number(more, LENGTH_BITS@[s] as nat) + symbol(
                usual_dists(),
                t,
            ),
        ),
    ensures
        fails(setup, data, before, after, Error::InvalidCode),
{
    let q = lemma_within(setup, data, head, blocks, block, last, before, middle, after);
    lemma_usual();
    let r = lemma_distance_due(setup, data, q, s, more, symbol(usual_dists(), t));
    lemma_symbol_shown(usual_dists(), data, r.pos, t);
    lemma_at_distance(setup, r);
    lemma_failed(setup, data, before, r, Error::InvalidCode);
}

/// A copy cannot reach further back than there is output, nor than the output
/// can be reached, nor can it be made where there is no room for it: whichever
/// comes first is what is told.
pub proof fn copies_out_of_bounds_fail(
    setup: Setup,
    data: Seq<u8>,
    head: Seq<u8>,
    blocks: Seq<Block>,
    block: Block,
    last: bool,
    before: Seq<u8>,
    middle: Seq<u8>,
    after: Seq<u8>,
    item: Item,
)
    requires
        within(setup, data, head, blocks, block, last, before, middle, after),
        item is Copy,
        writable(block_lits(block), block_dists(block), item),
        shows(
            data,
            end_of_items(head, blocks, block, last),
            item_bits(block_lits(block), block_dists(block), item),
        ),
    ensures
        distance(item) > after.len() ==> fails(setup, data, before, after, Error::InvalidDistance),
        setup.terms.reach < distance(item) <= after.len() ==> fails(
            setup,
            data,
            before,
            after,
            Error::WindowTooSmall,
        ),
        distance(item) <= after.len() && distance(item) <= setup.terms.reach && after.len()
            + width(item) > setup.terms.most ==> {
            let end = advance(setup, data, origin(before));
            &&& end.state == State::Failed(Error::OutputFull)
            // As much of it is made as there is room for, or nothing is.
            &&& after.is_prefix_of(end.out)
            &&& end.out.len() == if setup.terms.partial {
                setup.terms.most
            } else {
                after.len() as int
            }
            &&& forall|i: int|
                after.len() <= i < end.out.len() ==> #[trigger] end.out[i] == end.out[i - distance(item)]
        },
{
    let q = lemma_within(setup, data, head, blocks, block, last, before, middle, after);
    if let Item::Copy(s, more, t, far) = item {
        let (c, d) = (symbol(q.dist_code, t), plain_number(far, DISTANCE_BITS@[t] as nat));
        let r = lemma_distance_due(setup, data, q, s, more, c + d);
        lemma_shows_parts(data, r.pos, c, d);
        lemma_symbol_shown(q.dist_code, data, r.pos, t);
        lemma_number_shown(data, r.pos + c.len(), far, DISTANCE_BITS@[t] as nat);
        lemma_distance_table(t);
        lemma_at_distance(setup, r);
        if distance(item) > after.len() {
            lemma_failed(setup, data, before, r, Error::InvalidDistance);
        } else if distance(item) > setup.terms.reach {
            lemma_failed(setup, data, before, r, Error::WindowTooSmall);
        } else if after.len() + width(item) > setup.terms.most {
            lemma_failed(setup, data, before, r, Error::OutputFull);
            let room = (setup.terms.most - after.len()) as nat;
            lemma_dist_range(t, far);
            lemma_copied(after, distance(item), room);
            assert forall|i: int| after.len() <= i < after.len() + room implies #[trigger] copied(
                after,
                distance(item),
                room,
            )[i] == copied(after, distance(item), room)[i - distance(item)] by {
                lemma_copied_tells(after, distance(item), room, i);
            }
        }
    }
}

/// There is no room for a byte past the most that an output takes.
pub proof fn bytes_out_of_bounds_fail(
    setup: Setup,
    data: Seq<u8>,
    head: Seq<u8>,
    blocks: Seq<Block>,
    block: Block,
    last: bool,
    before: Seq<u8>,
    middle: Seq<u8>,
    after: Seq<u8>,
    byte: u8,
)
    requires
        within(setup, data, head, blocks, block, last, before, middle, after),
        codes(block_lits(block), byte as int),
        shows(data, end_of_items(head, blocks, block, last), symbol(block_lits(block), byte as int)),
        after.len() == setup.terms.most,
    ensures
        fails(setup, data, before, after, Error::OutputFull),
{
    let q = lemma_within(setup, data, head, blocks, block, last, before, middle, after);
    lemma_symbol_shown(q.len_code, data, q.pos, byte as int);
    lemma_at_length(setup, q);
    lemma_failed(setup, data, before, q, Error::OutputFull);
}

/// What does not start like a gzip header is none, and what does may be more than
/// is supported.
pub proof fn gzip_headers_fail(setup: Setup, data: Seq<u8>, out: Seq<u8>)
    requires
        setup.kind is Gzip,
    ensures
        data.len() >= 1 && data[0] != 0x1f ==> fails(setup, data, out, out, Error::InvalidHeader),
        data.len() >= 2 && data[0] == 0x1f && data[1] != 0x8b ==> fails(
            setup,
            data,
            out,
            out,
            Error::InvalidHeader,
        ),
        data.len() >= 3 && data[0] == 0x1f && data[1] == 0x8b && data[2] != 8 ==> fails(
            setup,
            data,
            out,
            out,
            Error::Unsupported,
        ),
        data.len() >= 4 && data[0] == 0x1f && data[1] == 0x8b && data[2] == 8 && data[3] >= 0x20 ==> fails(
            setup,
            data,
            out,
            out,
            Error::InvalidHeader,
        ),
{
    let p = origin(out);
    lemma_byte_read(data, 0);
    lemma_byte_read(data, 1);
    lemma_byte_read(data, 2);
    lemma_byte_read(data, 3);
    lemma_at_start(setup, p);
    if data.len() >= 1 {
        if data[0] != 0x1f {
            lemma_failed(setup, data, out, p, Error::InvalidHeader);
        } else {
            lemma_next(setup, data, p);
            let a = Progress { state: State::Member, pos: 8, marks: marked(p), ..p };
            assert(up_to_next(setup, data, p) == up_to_next(setup, data, a));
            lemma_at_member(setup, a);
            if data.len() >= 2 && data[1] != 0x8b {
                lemma_failed(setup, data, out, a, Error::InvalidHeader);
            } else if data.len() >= 3 && data[2] != 8 {
                lemma_failed(setup, data, out, a, Error::Unsupported);
            } else if data.len() >= 4 && data[3] >= 0x20 {
                let f = data[3] as u16;
                assert(f & 0xe0 != 0) by (bit_vector)
                    requires
                        0x20 <= f < 256,
                ;
                lemma_failed(setup, data, out, a, Error::InvalidHeader);
            }
        }
    }
}

/// What does not check is no zlib header, and what does may be more than is
/// supported.
pub proof fn zlib_headers_fail(setup: Setup, data: Seq<u8>, out: Seq<u8>)
    requires
        setup.kind is Zlib,
        data.len() >= 2,
    ensures
        (256 * data[0] + data[1]) % 31 != 0 ==> fails(setup, data, out, out, Error::InvalidHeader),
        (256 * data[0] + data[1]) % 31 == 0 && !zlib_header_possible(data[0], data[1]) ==> fails(
            setup,
            data,
            out,
            out,
            Error::Unsupported,
        ),
{
    let p = origin(out);
    lemma_byte_read(data, 0);
    lemma_byte_read(data, 1);
    lemma_at_start(setup, p);
    lemma_zlib_bytes(data[0], data[1]);
    assert(data[0] as nat * 256 + data[1] as nat == 256 * data[0] + data[1]);
    if (256 * data[0] + data[1]) % 31 != 0 {
        lemma_failed(setup, data, out, p, Error::InvalidHeader);
    } else if !zlib_header_possible(data[0], data[1]) {
        lemma_failed(setup, data, out, p, Error::Unsupported);
    }
}

/// Nothing is there if no codeword is.
proof fn lemma_nothing(lengths: Seq<u8>, data: Seq<u8>, pos: int)
    requires
        0 <= pos,
        pos + 15 <= bit_len(data),
        forall|s: int| codes(lengths, s) ==> !shows(data, pos, #[trigger] symbol(lengths, s)),
    ensures
        symbol_at(lengths, data, pos) is Nothing,
{
    lemma_symbol_bits(lengths, data, pos, 1);
    if symbol_at(lengths, data, pos) is Symbol {
        lemma_symbol_is_there(lengths, data, pos);
    }
}

/// Fifteen bits that no codeword for bytes and lengths is the start of are none.
pub proof fn unknown_codewords_fail(
    setup: Setup,
    data: Seq<u8>,
    head: Seq<u8>,
    blocks: Seq<Block>,
    block: Block,
    last: bool,
    before: Seq<u8>,
    middle: Seq<u8>,
    after: Seq<u8>,
)
    requires
        within(setup, data, head, blocks, block, last, before, middle, after),
        end_of_items(head, blocks, block, last) + 15 <= bit_len(data),
        forall|s: int|
            codes(block_lits(block), s) ==> !shows(
                data,
                end_of_items(head, blocks, block, last),
                #[trigger] symbol(block_lits(block), s),
            ),
    ensures
        fails(setup, data, before, after, Error::InvalidCode),
{
    let q = lemma_within(setup, data, head, blocks, block, last, before, middle, after);
    lemma_nothing(q.len_code, data, q.pos);
    lemma_at_length(setup, q);
    lemma_failed(setup, data, before, q, Error::InvalidCode);
}

/// The same of the codewords for distances, after a length.
pub proof fn unknown_distances_fail(
    setup: Setup,
    data: Seq<u8>,
    head: Seq<u8>,
    blocks: Seq<Block>,
    block: Block,
    last: bool,
    before: Seq<u8>,
    middle: Seq<u8>,
    after: Seq<u8>,
    s: int,
    more: nat,
)
    requires
        within(setup, data, head, blocks, block, last, before, middle, after),
        0 <= s < 29,
        more < pow2(LENGTH_BITS@[s] as nat),
        codes(block_lits(block), 257 + s),
        ({
            let length = symbol(block_lits(block), 257 + s) + plain_number(more, LENGTH_BITS@[s] as nat);
            let pos = end_of_items(head, blocks, block, last);
            &&& shows(data, pos, length)
            &&& pos + length.len() + 15 <= bit_len(data)
            &&& forall|t: int|
                codes(block_dists(block), t) ==> !shows(
                    data,
                    pos + length.len(),
                    #[trigger] symbol(block_dists(block), t),
                )
        }),
    ensures
        fails(setup, data, before, after, Error::InvalidCode),
{
    let q = lemma_within(setup, data, head, blocks, block, last, before, middle, after);
    let length = symbol(q.len_code, 257 + s) + plain_number(more, LENGTH_BITS@[s] as nat);
    let none = Seq::<bool>::empty();
    assert(length + none =~= length);
    let r = lemma_distance_due(setup, data, q, s, more, none);
    lemma_nothing(r.dist_code, data, r.pos);
    lemma_at_distance(setup, r);
    lemma_failed(setup, data, before, r, Error::InvalidCode);
}

} // verus!
