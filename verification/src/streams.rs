//! What streams are: whatever is written the way [`syntax`](crate::syntax) says
//! decodes to what it stands for, whatever wrote it, and nothing else decodes.

use vstd::arithmetic::power2::{lemma2_to64, pow2};
use vstd::prelude::*;

use crate::bits::{align, bit, bit_len, lemma_number_bound, number};
use crate::checksum::{adler32, adler_from, crc32};
use crate::decoding::{
    advance, lemma_at_checksum, lemma_at_end, lemma_at_next, lemma_at_size, lemma_at_start, origin,
    step, swapped, Kind, Progress, Setup, State,
};
use crate::error::Error;
use crate::explained::{explain_blocks, lemma_goes_on, settled};
use crate::framing::{
    explain_gzip_header, explain_zlib_header, lemma_byte_read, lemma_gzip_header, lemma_low_first,
    lemma_low_first_len, lemma_swapped_bytes, lemma_zlib_header,
};
use crate::laws::{exactly, lemma_single, member_of, stream_decodes_anywhere, stream_of};
use crate::roundtrip::lemma_next;
use crate::shift::lemma_bit_shift;
use crate::single::{lemma_beyond, lemma_next_forward, lemma_next_stays, up_to_next};
use crate::steps::lemma_halted_stays;
use crate::syntax::{
    block_items, block_possible, block_width, blocks_possible, blocks_tell, blocks_written,
    deflated, distance, gzip_framed, header_bytes, header_possible, high_first, items_tell,
    low_first, possible, reached, shows, width, zlib_framed, zlib_header_possible, Block, Header,
    Item,
};
use crate::understood::{lemma_block_width, lemma_blocks, lemma_width};

verus! {

/// Blocks decode to what they stand for, each right after the one before it, at
/// whatever bit that ends: to any output that has room for it, and that copies
/// can reach as far back in as these do, on top of whatever was output before.
pub proof fn deflate_decodes(
    setup: Setup,
    data: Seq<u8>,
    blocks: Seq<Block>,
    before: Seq<u8>,
    after: Seq<u8>,
)
    requires
        setup.kind is Raw,
        blocks.len() > 0,
        blocks_possible(blocks, 0),
        blocks_tell(blocks, before, after),
        shows(data, 0, blocks_written(blocks, true)),
        after.len() <= setup.terms.most,
        after.len() > 0 ==> setup.terms.reach != 0,
        reached(blocks, setup.terms.reach),
    ensures
        ({
            let end = advance(setup, data, origin(before));
            &&& end.state is Done
            &&& end.pos == align(blocks_written(blocks, true).len() as int)
            &&& end.out == after
        }),
{
    let p = origin(before);
    lemma_at_start(setup, p);
    lemma_next(setup, data, p);
    let a = Progress { state: State::Block, ..p };
    let q = lemma_blocks(setup, data, blocks, true, a, after);
    lemma_at_end(setup, q);
    lemma_next(setup, data, q);
    lemma_beyond(setup, data, p);
}

/// No copy reaches further back than there is data.
proof fn lemma_items_reach(items: Seq<Item>, before: Seq<u8>, after: Seq<u8>)
    requires
        items_tell(items, before, after),
        forall|i: int| 0 <= i < items.len() ==> possible(#[trigger] items[i]),
    ensures
        forall|i: int| 0 <= i < items.len() ==> distance(#[trigger] items[i]) <= after.len(),
    decreases items.len(),
{
    if items.len() > 0 {
        let fewer = items.drop_last();
        let n = after.len() - width(items.last());
        assert(items.last() == items[items.len() - 1]);
        lemma_width(items.last());
        assert forall|i: int| 0 <= i < fewer.len() implies possible(#[trigger] fewer[i]) by {
            assert(fewer[i] == items[i]);
        }
        lemma_items_reach(fewer, before, after.take(n));
        assert forall|i: int| 0 <= i < items.len() implies distance(#[trigger] items[i]) <= after.len() by {
            if i < fewer.len() {
                assert(fewer[i] == items[i]);
            }
        }
    }
}

proof fn lemma_blocks_reach(blocks: Seq<Block>, pos: int, before: Seq<u8>, after: Seq<u8>)
    requires
        blocks_possible(blocks, pos),
        blocks_tell(blocks, before, after),
    ensures
        reached(blocks, after.len() as int),
    decreases blocks.len(),
{
    if blocks.len() > 0 {
        let fewer = blocks.drop_last();
        let block = blocks.last();
        let n = after.len() - block_width(block);
        lemma_block_width(block, pos + blocks_written(fewer, false).len());
        lemma_blocks_reach(fewer, pos, before, after.take(n));
        let items = block_items(block);
        if block !is Stored {
            assert forall|i: int| 0 <= i < items.len() implies possible(#[trigger] items[i]) by {}
            lemma_items_reach(items, after.take(n), after);
        }
        assert forall|i: int, k: int|
            0 <= i < blocks.len() && 0 <= k < block_items(blocks[i]).len() implies distance(
            #[trigger] block_items(#[trigger] blocks[i])[k],
        ) <= after.len() by {
            if i < fewer.len() {
                assert(fewer[i] == blocks[i]);
                assert(distance(block_items(fewer[i])[k]) <= after.take(n).len());
            } else {
                assert(blocks[i] == block);
            }
        }
    }
}

/// What is a raw deflate stream: what blocks make, up to a byte boundary, and
/// nothing else.
pub proof fn deflate_streams(data: Seq<u8>, plain: Seq<u8>)
    ensures
        stream_of(Kind::Raw, data, plain) <==> exists|blocks: Seq<Block>| deflated(blocks, data, plain),
{
    let setup = exactly(Kind::Raw, plain.len());
    let p = origin(Seq::empty());
    if exists|blocks: Seq<Block>| deflated(blocks, data, plain) {
        let blocks = choose|blocks: Seq<Block>| deflated(blocks, data, plain);
        lemma_blocks_reach(blocks, 0, Seq::empty(), plain);
        deflate_decodes(setup, data, blocks, Seq::empty(), plain);
    }
    if stream_of(Kind::Raw, data, plain) {
        lemma_single(setup, data, plain);
        let a = lemma_goes_on(setup, data, p);
        lemma_at_start(setup, p);
        assert(shows(data, 0, Seq::<bool>::empty()));
        let (blocks, q) = explain_blocks(setup, data, a, Seq::empty(), a);
        lemma_at_end(setup, q);
        lemma_next(setup, data, q);
        assert(deflated(blocks, data, plain));
    }
}

/// Bits are the same further on.
proof fn lemma_shows_shift(a: Seq<u8>, b: Seq<u8>, c: Seq<u8>, bits: Seq<bool>)
    requires
        bits.len() <= bit_len(b),
    ensures
        shows(a + b + c, 8 * a.len() as int, bits) == shows(b, 0, bits),
{
    let all = a + b + c;
    assert forall|i: int| 0 <= i < bits.len() implies #[trigger] bit(all, 8 * a.len() as int + i) == bit(
        b,
        0 + i,
    ) by {
        assert(all =~= a + (b + c));
        lemma_bit_shift(a, b + c, i);
        assert((b + c)[i / 8] == b[i / 8]);
    }
    if shows(all, 8 * a.len() as int, bits) {
        assert forall|i: int| 0 <= i < bits.len() implies (bit(b, 0 + i) == 1) == #[trigger] bits[i] by {
            assert(bit(all, 8 * a.len() as int + i) == bit(b, 0 + i));
        }
    }
    if shows(b, 0, bits) {
        assert forall|i: int| 0 <= i < bits.len() implies (bit(all, 8 * a.len() as int + i) == 1)
            == #[trigger] bits[i] by {
            assert((bit(b, 0 + i) == 1) == bits[i]);
        }
    }
}

/// So are blocks.
proof fn lemma_blocks_shift(blocks: Seq<Block>, pos: int, bytes: int)
    ensures
        blocks_possible(blocks, pos + 8 * bytes) == blocks_possible(blocks, pos),
    decreases blocks.len(),
{
    if blocks.len() > 0 {
        lemma_blocks_shift(blocks.drop_last(), pos, bytes);
        let at = pos + blocks_written(blocks.drop_last(), false).len();
        if let Block::Stored(pad, _) = blocks.last() {
            assert((at + 8 * bytes + 3 + pad.len()) % 8 == (at + 3 + pad.len()) % 8);
        }
        assert(block_possible(blocks.last(), at + 8 * bytes) == block_possible(blocks.last(), at));
    }
}

/// A raw stream is decoded within a frame.
proof fn lemma_framed(
    setup: Setup,
    head: Seq<u8>,
    raw: Seq<u8>,
    tail: Seq<u8>,
    plain: Seq<u8>,
    p: Progress,
) -> (q: Progress)
    requires
        stream_of(Kind::Raw, raw, plain),
        plain.len() <= setup.terms.most,
        plain.len() <= setup.terms.reach,
        setup.kind !is Raw,
        p.state is Block,
        p.pos == 8 * head.len(),
        p.out.len() == 0,
    ensures
        up_to_next(setup, head + raw + tail, p) == up_to_next(setup, head + raw + tail, q),
        q.state is Checksum,
        q.pos == 8 * (head.len() + raw.len()),
        q.out == plain,
        q.gzip == p.gzip,
        q.start == p.start,
{
    let data = head + raw + tail;
    deflate_streams(raw, plain);
    let blocks = choose|blocks: Seq<Block>| deflated(blocks, raw, plain);
    let bits = blocks_written(blocks, true);
    lemma_shows_shift(head, raw, tail, bits);
    lemma_blocks_shift(blocks, 0, head.len() as int);
    lemma_blocks_reach(blocks, 0, Seq::empty(), plain);
    assert forall|i: int, k: int|
        0 <= i < blocks.len() && 0 <= k < block_items(blocks[i]).len() implies distance(
        #[trigger] block_items(#[trigger] blocks[i])[k],
    ) <= setup.terms.reach by {
        assert(distance(block_items(blocks[i])[k]) <= plain.len());
    }
    assert(p.out =~= Seq::<u8>::empty());
    lemma_blocks(setup, data, blocks, true, p, plain)
}

/// What gets to the end within a frame is a raw stream.
proof fn explain_framed(setup: Setup, data: Seq<u8>, n: int, p: Progress) -> (q: Progress)
    requires
        setup.kind !is Raw,
        p.state is Block,
        0 <= n <= data.len(),
        p.pos == 8 * n,
        p.out.len() == 0,
        settled(up_to_next(setup, data, p)),
    ensures
        up_to_next(setup, data, p) == up_to_next(setup, data, q),
        q.state is Checksum,
        q.gzip == p.gzip,
        q.start == p.start,
        q.pos % 8 == 0,
        8 * n <= q.pos <= bit_len(data),
        stream_of(Kind::Raw, data.subrange(n, q.pos / 8), q.out),
{
    assert(shows(data, p.pos, Seq::<bool>::empty()));
    let (blocks, q) = explain_blocks(setup, data, p, Seq::empty(), p);
    let bits = blocks_written(blocks, true);
    let end = q.pos / 8;
    assert(p.out =~= Seq::<u8>::empty());
    assert(q.pos == align(8 * n + bits.len()));
    let (head, raw, tail) = (data.take(n), data.subrange(n, end), data.skip(end));
    assert(data =~= head + raw + tail);
    lemma_shows_shift(head, raw, tail, bits);
    lemma_blocks_shift(blocks, 0, n);
    assert(deflated(blocks, raw, q.out));
    deflate_streams(raw, q.out);
    q
}

/// Both sums of an Adler-32 are below its modulus.
proof fn lemma_adler_bound(data: Seq<u8>)
    ensures
        0 <= adler32(data) < 0x1_0000_0000,
{
    if data.len() > 0 {
        assert(adler_from(1, 0, data).0 < 65521 && adler_from(1, 0, data).1 < 65521);
    }
}

/// A raw stream in a zlib frame is a zlib stream: any method byte that tells of
/// deflate and of a window of at most 32 KiB will do, with any flags that tell of
/// no dictionary and make the check fit.
pub proof fn zlib_frames(method: u8, flags: u8, raw: Seq<u8>, plain: Seq<u8>)
    requires
        zlib_header_possible(method, flags),
        stream_of(Kind::Raw, raw, plain),
    ensures
        stream_of(Kind::Zlib, zlib_framed(method, flags, raw, plain), plain),
{
    let data = zlib_framed(method, flags, raw, plain);
    let setup = exactly(Kind::Zlib, plain.len());
    let p = origin(Seq::empty());
    let (head, tail) = (seq![method, flags], high_first(adler32(plain), 4));
    lemma_adler_bound(plain);
    lemma_swapped_bytes(adler32(plain));
    let sum = swapped(adler32(plain));
    lemma_low_first_len(sum, 4);
    assert(data[0] == method && data[1] == flags);
    let a = lemma_zlib_header(setup, data, Seq::empty());
    let q = lemma_framed(setup, head, raw, tail, plain, a);
    let k = 2 + raw.len() as int;
    assert(data.subrange(k, k + 4) =~= tail);
    assert(pow2(32) == 0x1_0000_0000) by {
        lemma2_to64();
    }
    assert(0 <= sum < 0x1_0000_0000);
    lemma_low_first(data, k, 4);
    assert(q.out.skip(0) =~= plain);
    lemma_at_checksum(setup, q);
    lemma_next(setup, data, q);
    let end = Progress { state: State::Done, pos: 8 * (k + 4), ..q };
    assert(step(setup, data, q) == Some(end));
    lemma_at_end(setup, end);
    lemma_next(setup, data, end);
    lemma_beyond(setup, data, p);
}

/// A zlib stream is a raw stream in a zlib frame.
pub proof fn zlib_is_framed(data: Seq<u8>, plain: Seq<u8>)
    requires
        stream_of(Kind::Zlib, data, plain),
    ensures
        data.len() >= 6,
        zlib_header_possible(data[0], data[1]),
        stream_of(Kind::Raw, data.subrange(2, data.len() - 4), plain),
        data == zlib_framed(data[0], data[1], data.subrange(2, data.len() - 4), plain),
{
    let setup = exactly(Kind::Zlib, plain.len());
    let p = origin(Seq::empty());
    lemma_single(setup, data, plain);
    explain_zlib_header(setup, data, Seq::empty());
    let a = lemma_zlib_header(setup, data, Seq::empty());
    let q = explain_framed(setup, data, 2, a);
    let end = lemma_goes_on(setup, data, q);
    lemma_at_checksum(setup, q);
    lemma_at_end(setup, end);
    lemma_next(setup, data, end);
    let k = q.pos / 8;
    lemma_adler_bound(plain);
    lemma_low_first(data, k, 4);
    lemma_swapped_bytes(adler32(plain));
    assert(q.out.skip(0) =~= q.out);
    let raw = data.subrange(2, k);
    assert(data =~= seq![data[0], data[1]] + raw + data.subrange(k, k + 4));
}

/// The trailer of a gzip member is decoded.
proof fn lemma_gzip_trailer(setup: Setup, data: Seq<u8>, plain: Seq<u8>, q: Progress) -> (end: Progress)
    requires
        q.state is Checksum,
        q.gzip,
        q.start == 0,
        q.out == plain,
        q.pos % 8 == 0,
        0 <= q.pos,
        q.pos + 64 == bit_len(data),
        data.skip(q.pos / 8) == low_first(crc32(plain) as int, 4) + low_first(
            plain.len() as int % 0x1_0000_0000,
            4,
        ),
    ensures
        up_to_next(setup, data, q) == end,
        end.state is Next,
        end.pos == bit_len(data),
        end.out == plain,
{
    let k = q.pos / 8;
    let (a, b) = (low_first(crc32(plain) as int, 4), low_first(plain.len() as int % 0x1_0000_0000, 4));
    lemma_low_first_len(crc32(plain) as int, 4);
    lemma_low_first_len(plain.len() as int % 0x1_0000_0000, 4);
    assert(data.subrange(k, k + 4) =~= a) by {
        assert((a + b).subrange(0, 4) =~= a);
        assert(data.skip(k).subrange(0, 4) =~= data.subrange(k, k + 4));
    }
    assert(data.subrange(k + 4, k + 4 + 4) =~= b) by {
        assert((a + b).subrange(4, 8) =~= b);
        assert(data.skip(k).subrange(4, 8) =~= data.subrange(k + 4, k + 8));
    }
    assert(pow2(32) == 0x1_0000_0000) by {
        lemma2_to64();
    }
    lemma_low_first(data, k, 4);
    lemma_low_first(data, k + 4, 4);
    assert(q.out.skip(0) =~= plain);
    lemma_at_checksum(setup, q);
    lemma_next(setup, data, q);
    let one = Progress { state: State::Size(crc32(plain)), pos: q.pos + 32, ..q };
    assert(number(data, q.pos, 32) == crc32(plain));
    assert(step(setup, data, q) == Some(one));
    lemma_at_size(setup, one);
    lemma_next(setup, data, one);
    let end = Progress { state: State::Next, pos: q.pos + 64, ..q };
    assert(step(setup, data, one) == Some(end));
    lemma_next(setup, data, end);
    end
}

/// A stream that first ends where it ends has a single member.
proof fn lemma_member(data: Seq<u8>, plain: Seq<u8>)
    requires
        forall|room: nat|
            plain.len() <= room ==> {
                let end = #[trigger] up_to_next(exactly(Kind::Gzip, room), data, origin(Seq::empty()));
                &&& end.state is Next
                &&& end.pos == bit_len(data)
                &&& end.out == plain
            },
    ensures
        member_of(data, plain),
{
    let p = origin(Seq::empty());
    let own = exactly(Kind::Gzip, plain.len());
    lemma_beyond(own, data, p);
    let end = up_to_next(own, data, p);
    lemma_at_next(own, end);
    assert(advance(own, data, end) == end) by {
        reveal(advance);
    }
    assert forall|n: int, some: Seq<u8>| 0 <= n < data.len() implies !(#[trigger] stream_of(
        Kind::Gzip,
        data.take(n),
        some,
    )) by {
        if stream_of(Kind::Gzip, data.take(n), some) {
            let room = if some.len() < plain.len() {
                plain.len()
            } else {
                some.len()
            };
            let setup = exactly(Kind::Gzip, room);
            assert(up_to_next(setup, data, p).pos == bit_len(data));
            stream_decodes_anywhere(setup, data.take(n), some, Seq::empty());
            lemma_beyond(setup, data.take(n), p);
            lemma_next_forward(setup, data.take(n), p);
            lemma_next_stays(setup, data.take(n), data.skip(n), p);
            assert(data.take(n) + data.skip(n) =~= data);
        }
    }
}

/// A raw stream in a gzip frame is a gzip stream that has a single member: any
/// extra field, any name and any comment will do, and any checksum of the header,
/// in any combination, with whatever facts.
pub proof fn gzip_frames(header: Header, raw: Seq<u8>, plain: Seq<u8>)
    requires
        header_possible(header),
        stream_of(Kind::Raw, raw, plain),
    ensures
        member_of(gzip_framed(header, raw, plain), plain),
{
    let data = gzip_framed(header, raw, plain);
    let p = origin(Seq::empty());
    let head = header_bytes(header);
    let tail = low_first(crc32(plain) as int, 4) + low_first(plain.len() as int % 0x1_0000_0000, 4);
    lemma_low_first_len(crc32(plain) as int, 4);
    lemma_low_first_len(plain.len() as int % 0x1_0000_0000, 4);
    assert(data =~= head + raw + tail);
    assert(head =~= data.subrange(0, head.len() as int));
    assert forall|room: nat| plain.len() <= room implies {
        let end = #[trigger] up_to_next(exactly(Kind::Gzip, room), data, p);
        &&& end.state is Next
        &&& end.pos == bit_len(data)
        &&& end.out == plain
    } by {
        let setup = exactly(Kind::Gzip, room);
        let a = lemma_gzip_header(setup, data, header, Seq::empty());
        let q = lemma_framed(setup, head, raw, tail, plain, a);
        assert(data.skip(q.pos / 8) =~= tail);
        let end = lemma_gzip_trailer(setup, data, plain, q);
    }
    lemma_member(data, plain);
}

/// A gzip stream that has a single member is a raw stream in a gzip frame.
pub proof fn gzip_is_framed(data: Seq<u8>, plain: Seq<u8>)
    requires
        member_of(data, plain),
    ensures
        exists|header: Header, raw: Seq<u8>|
            {
                &&& header_possible(header)
                &&& #[trigger] stream_of(Kind::Raw, raw, plain)
                &&& data == #[trigger] gzip_framed(header, raw, plain)
            },
{
    let setup = exactly(Kind::Gzip, plain.len());
    let p = origin(Seq::empty());
    lemma_single(setup, data, plain);
    let (header, a) = explain_gzip_header(setup, data, Seq::empty());
    let head = header_bytes(header);
    let q = explain_framed(setup, data, head.len() as int, a);
    let one = lemma_goes_on(setup, data, q);
    lemma_at_checksum(setup, q);
    let end = lemma_goes_on(setup, data, one);
    lemma_at_size(setup, one);
    lemma_next(setup, data, end);
    let k = q.pos / 8;
    lemma_low_first(data, k, 4);
    lemma_low_first(data, k + 4, 4);
    lemma_number_bound(data, q.pos, 32);
    assert(pow2(32) == 0x1_0000_0000) by {
        lemma2_to64();
    }
    assert(q.out.skip(0) =~= q.out);
    assert(q.out == plain);
    let raw = data.subrange(head.len() as int, k);
    assert(number(data, q.pos, 32) == crc32(plain));
    assert(number(data, q.pos + 32, 32) == plain.len() % 0x1_0000_0000);
    assert(data =~= head + raw + data.subrange(k, k + 4) + data.subrange(k + 4, k + 4 + 4)) by {
        assert(head =~= data.subrange(0, head.len() as int));
    }
    assert(stream_of(Kind::Raw, raw, plain) && data == gzip_framed(header, raw, plain));
}

/// The trailer of a gzip member is held against its data: the length in any case,
/// the checksum if the output verifies it. What comes after the member makes no
/// difference.
pub proof fn gzip_trailers_count(
    setup: Setup,
    header: Header,
    raw: Seq<u8>,
    plain: Seq<u8>,
    sum: Seq<u8>,
    size: Seq<u8>,
    more: Seq<u8>,
)
    requires
        setup.kind is Gzip,
        plain.len() <= setup.terms.most,
        plain.len() <= setup.terms.reach,
        header_possible(header),
        stream_of(Kind::Raw, raw, plain),
        sum.len() == 4,
        size.len() == 4,
    ensures
        ({
            let data = header_bytes(header) + raw + (sum + size);
            let end = advance(setup, data + more, origin(Seq::empty()));
            let right = size == low_first(plain.len() as int % 0x1_0000_0000, 4) && (sum == low_first(
                crc32(plain) as int,
                4,
            ) || !setup.verify);
            &&& !right ==> end.state == State::Failed(Error::ChecksumMismatch)
            &&& right && more.len() == 0 ==> end.state is Next && end.pos == bit_len(data)
            &&& right && more.len() > 0 && more[0] != 0x1f ==> end.state is Done && end.pos == bit_len(data)
                + 8
            &&& !right || more.len() == 0 || more[0] != 0x1f ==> end.out == plain
        }),
{
    let head = header_bytes(header);
    let tail = sum + size + more;
    let data = head + raw + tail;
    let p = origin(Seq::empty());
    assert(head + raw + (sum + size) + more =~= data);
    assert(head =~= data.subrange(0, head.len() as int));
    let a = lemma_gzip_header(setup, data, header, Seq::empty());
    let q = lemma_framed(setup, head, raw, tail, plain, a);
    let k = (head.len() + raw.len()) as int;
    assert(data.subrange(k, k + 4) =~= sum);
    assert(data.subrange(k + 4, k + 4 + 4) =~= size);
    assert(pow2(32) == 0x1_0000_0000) by {
        lemma2_to64();
    }
    lemma_low_first(data, k, 4);
    lemma_low_first(data, k + 4, 4);
    lemma_number_bound(data, 8 * k, 32);
    assert(q.out.skip(0) =~= plain);
    let (x, y) = (number(data, 8 * k, 32), number(data, 8 * (k + 4), 32));
    lemma_at_checksum(setup, q);
    lemma_next(setup, data, q);
    let one = Progress { state: State::Size(x as u32), pos: q.pos + 32, ..q };
    assert(step(setup, data, q) == Some(one));
    lemma_at_size(setup, one);
    lemma_next(setup, data, one);
    let two = step(setup, data, one)->0;
    lemma_beyond(setup, data, p);
    if two.state is Failed {
        lemma_at_end(setup, two);
        lemma_next(setup, data, two);
    } else {
        lemma_next(setup, data, two);
        lemma_at_next(setup, two);
        reveal(advance);
        if more.len() > 0 {
            lemma_byte_read(data, k + 8);
            assert(data[k + 8] == more[0]);
            if more[0] != 0x1f {
                lemma_halted_stays(setup, data, step(setup, data, two)->0);
            }
        }
    }
}

/// The trailer of a zlib stream is held against its data, if the output verifies
/// it.
pub proof fn zlib_trailers_count(
    setup: Setup,
    method: u8,
    flags: u8,
    raw: Seq<u8>,
    plain: Seq<u8>,
    sum: Seq<u8>,
    more: Seq<u8>,
)
    requires
        setup.kind is Zlib,
        plain.len() <= setup.terms.most,
        plain.len() <= setup.terms.reach,
        zlib_header_possible(method, flags),
        stream_of(Kind::Raw, raw, plain),
        sum.len() == 4,
    ensures
        ({
            let data = seq![method, flags] + raw + sum;
            let end = advance(setup, data + more, origin(Seq::empty()));
            &&& end.pos == bit_len(data)
            &&& end.out == plain
            &&& end.state == if sum == high_first(adler32(plain), 4) || !setup.verify {
                State::Done
            } else {
                State::Failed(Error::ChecksumMismatch)
            }
        }),
{
    let head = seq![method, flags];
    let tail = sum + more;
    let data = head + raw + tail;
    let p = origin(Seq::empty());
    assert(head + raw + sum + more =~= data);
    assert(data[0] == method && data[1] == flags);
    let a = lemma_zlib_header(setup, data, Seq::empty());
    let q = lemma_framed(setup, head, raw, tail, plain, a);
    let k = 2 + raw.len() as int;
    assert(data.subrange(k, k + 4) =~= sum);
    assert(pow2(32) == 0x1_0000_0000) by {
        lemma2_to64();
    }
    lemma_adler_bound(plain);
    lemma_swapped_bytes(adler32(plain));
    let right = swapped(adler32(plain));
    assert(0 <= right < 0x1_0000_0000);
    lemma_low_first(data, k, 4);
    assert(low_first(right, 4) == high_first(adler32(plain), 4));
    assert(q.out.skip(0) =~= plain);
    lemma_at_checksum(setup, q);
    lemma_next(setup, data, q);
    let end = step(setup, data, q)->0;
    lemma_at_end(setup, end);
    lemma_next(setup, data, end);
    lemma_beyond(setup, data, p);
}

} // verus!
