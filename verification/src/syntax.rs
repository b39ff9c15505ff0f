//! What deflate streams look like, from the side of whatever writes them (RFC
//! 1951): blocks of three kinds, the codes that two of them use, and the bytes
//! and copies that these spell. Nothing here has to do with how a stream is
//! decoded.

use vstd::arithmetic::power2::pow2;
use vstd::prelude::*;

use crate::bits::{bit, bit_len};
use crate::checksum::{adler32, crc32};

verus! {

/// Whether `data` has `bits` at bit position `pos`.
pub open spec fn shows(data: Seq<u8>, pos: int, bits: Seq<bool>) -> bool {
    &&& 0 <= pos
    &&& pos + bits.len() <= bit_len(data)
    &&& forall|i: int|
        #![trigger bits[i]]
        0 <= i < bits.len() ==> (bit(data, pos + i) == 1) == bits[i]
}

/// A number, in `n` bits, the least significant first.
pub open spec fn plain_number(value: nat, n: nat) -> Seq<bool> {
    Seq::new(n, |i: int| (value / pow2(i as nat)) % 2 == 1)
}

/// A codeword, of `n` bits, the most significant first.
pub open spec fn codeword(value: nat, n: nat) -> Seq<bool> {
    Seq::new(n, |i: int| (value / pow2((n - 1 - i) as nat)) % 2 == 1)
}

/// Bytes, one after the other.
pub open spec fn plain_bytes(bytes: Seq<u8>) -> Seq<bool>
    decreases bytes.len(),
{
    if bytes.len() == 0 {
        Seq::empty()
    } else {
        plain_bytes(bytes.drop_last()) + plain_number(bytes.last() as nat, 8)
    }
}

/// How much of all there is, in units of a codeword of fifteen bits, the
/// codewords of the symbols before `i` take.
pub open spec fn share(lengths: Seq<u8>, i: int) -> nat
    decreases i,
{
    if i <= 0 {
        0
    } else {
        share(lengths, i - 1) + (if lengths[i - 1] > 0 {
            pow2((15 - lengths[i - 1]) as nat)
        } else {
            0
        })
    }
}

/// Whether the codeword of symbol `t` comes before that of symbol `s`: shorter
/// ones come first, and those of one length are in the order of their symbols.
pub open spec fn precedes(lengths: Seq<u8>, t: int, s: int) -> bool {
    &&& lengths[t] > 0
    &&& lengths[t] < lengths[s] || (lengths[t] == lengths[s] && t < s)
}

/// The share of the codewords that come before that of symbol `s`, of the
/// symbols before `i`.
pub open spec fn share_before(lengths: Seq<u8>, s: int, i: int) -> nat
    decreases i,
{
    if i <= 0 {
        0
    } else {
        share_before(lengths, s, i - 1) + (if precedes(lengths, i - 1, s) {
            pow2((15 - lengths[i - 1]) as nat)
        } else {
            0
        })
    }
}

/// Whether every codeword stands for a symbol, and for one only.
pub open spec fn whole(lengths: Seq<u8>) -> bool {
    share(lengths, lengths.len() as int) == 0x8000
}

/// Whether a code may be used for data: it is whole, or has one codeword of one
/// bit, or none.
pub open spec fn usable(lengths: Seq<u8>) -> bool {
    ||| whole(lengths)
    ||| {
        &&& share(lengths, lengths.len() as int) <= 0x4000
        &&& forall|s: int| 0 <= s < lengths.len() ==> #[trigger] lengths[s] <= 1
    }
}

/// Whether a symbol has a codeword.
pub open spec fn codes(lengths: Seq<u8>, s: int) -> bool {
    0 <= s < lengths.len() && lengths[s] > 0
}

/// The codeword of a symbol: codewords follow each other.
pub open spec fn symbol(lengths: Seq<u8>, s: int) -> Seq<bool> {
    let n = lengths[s] as nat;
    codeword(share_before(lengths, s, lengths.len() as int) / pow2((15 - n) as nat), n)
}

/// The shortest length of each length symbol, the first of which is 257.
pub const LENGTHS: [u16; 29] = [
    3, 4, 5, 6, 7, 8, 9, 10, 11, 13, 15, 17, 19, 23, 27, 31, 35, 43, 51, 59, 67, 83, 99, 115, 131,
    163, 195, 227, 258,
];

/// How many bits follow each length symbol, to add to it.
pub const LENGTH_BITS: [u8; 29] = [
    0, 0, 0, 0, 0, 0, 0, 0, 1, 1, 1, 1, 2, 2, 2, 2, 3, 3, 3, 3, 4, 4, 4, 4, 5, 5, 5, 5, 0,
];

/// The shortest distance of each distance symbol.
pub const DISTANCES: [u16; 30] = [
    1, 2, 3, 4, 5, 7, 9, 13, 17, 25, 33, 49, 65, 97, 129, 193, 257, 385, 513, 769, 1025, 1537,
    2049, 3073, 4097, 6145, 8193, 12289, 16385, 24577,
];

/// How many bits follow each distance symbol, to add to it.
pub const DISTANCE_BITS: [u8; 30] = [
    0, 0, 0, 0, 1, 1, 2, 2, 3, 3, 4, 4, 5, 5, 6, 6, 7, 7, 8, 8, 9, 9, 10, 10, 11, 11, 12, 12, 13,
    13,
];

/// What data is made of.
pub enum Item {
    /// A byte.
    Byte(u8),
    /// A copy of earlier data: a length symbol, less 257, what is added to it, a
    /// distance symbol, and what is added to that.
    Copy(int, nat, int, nat),
}

/// Whether there is such an item.
pub open spec fn possible(item: Item) -> bool {
    match item {
        Item::Byte(_) => true,
        Item::Copy(s, more, t, far) => {
            &&& 0 <= s < 29
            &&& more < pow2(LENGTH_BITS@[s] as nat)
            &&& 0 <= t < 30
            &&& far < pow2(DISTANCE_BITS@[t] as nat)
        },
    }
}

/// How many bytes it stands for.
pub open spec fn width(item: Item) -> int {
    match item {
        Item::Byte(_) => 1,
        Item::Copy(s, more, _, _) => LENGTHS@[s] + more,
    }
}

/// How far back these are to be found.
pub open spec fn distance(item: Item) -> int {
    match item {
        Item::Byte(_) => 0,
        Item::Copy(_, _, t, far) => DISTANCES@[t] + far,
    }
}

/// Whether the codes have what it takes to write an item.
pub open spec fn writable(lits: Seq<u8>, dists: Seq<u8>, item: Item) -> bool {
    &&& possible(item)
    &&& match item {
        Item::Byte(byte) => codes(lits, byte as int),
        Item::Copy(s, _, t, _) => codes(lits, 257 + s) && codes(dists, t),
    }
}

/// An item, as it is written.
pub open spec fn item_bits(lits: Seq<u8>, dists: Seq<u8>, item: Item) -> Seq<bool> {
    match item {
        Item::Byte(byte) => symbol(lits, byte as int),
        Item::Copy(s, more, t, far) => symbol(lits, 257 + s) + plain_number(more, LENGTH_BITS@[s] as nat)
            + (symbol(dists, t) + plain_number(far, DISTANCE_BITS@[t] as nat)),
    }
}

pub open spec fn items_bits(lits: Seq<u8>, dists: Seq<u8>, items: Seq<Item>) -> Seq<bool>
    decreases items.len(),
{
    if items.len() == 0 {
        Seq::empty()
    } else {
        items_bits(lits, dists, items.drop_last()) + item_bits(lits, dists, items.last())
    }
}

/// Whether an item takes the data to `after`, of which the first `n` bytes were
/// there before.
pub open spec fn item_tells(item: Item, n: int, after: Seq<u8>) -> bool {
    &&& 0 <= n
    &&& after.len() == n + width(item)
    &&& match item {
        Item::Byte(byte) => after[n] == byte,
        Item::Copy(_, _, _, _) => {
            &&& distance(item) <= n
            &&& forall|i: int| n <= i < after.len() ==> #[trigger] after[i] == after[i - distance(item)]
        },
    }
}

/// Whether items take the data from `before` to `after`.
pub open spec fn items_tell(items: Seq<Item>, before: Seq<u8>, after: Seq<u8>) -> bool
    decreases items.len(),
{
    if items.len() == 0 {
        after == before
    } else {
        let n = after.len() - width(items.last());
        &&& item_tells(items.last(), n, after)
        &&& items_tell(items.drop_last(), before, after.take(n))
    }
}

/// How code lengths are written down.
pub enum Fill {
    /// A length.
    Length(u8),
    /// The one before, three to six times more.
    Again(int),
    /// Three to ten zeros.
    Zeros(int),
    /// Eleven to 138 zeros.
    ManyZeros(int),
}

pub open spec fn fill_symbol(fill: Fill) -> int {
    match fill {
        Fill::Length(len) => len as int,
        Fill::Again(_) => 16,
        Fill::Zeros(_) => 17,
        Fill::ManyZeros(_) => 18,
    }
}

/// How many lengths it stands for.
pub open spec fn fill_width(fill: Fill) -> int {
    match fill {
        Fill::Length(_) => 1,
        Fill::Again(n) => n,
        Fill::Zeros(n) => n,
        Fill::ManyZeros(n) => n,
    }
}

/// Whether there is such a way, given the code that these are written with.
pub open spec fn fill_writable(code: Seq<u8>, fill: Fill) -> bool {
    &&& codes(code, fill_symbol(fill))
    &&& match fill {
        Fill::Length(len) => len <= 15,
        Fill::Again(n) => 3 <= n <= 6,
        Fill::Zeros(n) => 3 <= n <= 10,
        Fill::ManyZeros(n) => 11 <= n <= 138,
    }
}

pub open spec fn fill_bits(code: Seq<u8>, fill: Fill) -> Seq<bool> {
    symbol(code, fill_symbol(fill)) + match fill {
        Fill::Length(_) => Seq::empty(),
        Fill::Again(n) => plain_number((n - 3) as nat, 2),
        Fill::Zeros(n) => plain_number((n - 3) as nat, 3),
        Fill::ManyZeros(n) => plain_number((n - 11) as nat, 7),
    }
}

pub open spec fn fills_bits(code: Seq<u8>, fills: Seq<Fill>) -> Seq<bool>
    decreases fills.len(),
{
    if fills.len() == 0 {
        Seq::empty()
    } else {
        fills_bits(code, fills.drop_last()) + fill_bits(code, fills.last())
    }
}

/// Whether the lengths past the first `n` are what `fill` stands for.
pub open spec fn fill_tells(fill: Fill, n: int, lengths: Seq<u8>) -> bool {
    &&& 0 <= n
    &&& lengths.len() == n + fill_width(fill)
    &&& fill is Again ==> n > 0
    &&& forall|i: int|
        n <= i < lengths.len() ==> #[trigger] lengths[i] == match fill {
            Fill::Length(len) => len,
            Fill::Again(_) => lengths[n - 1],
            _ => 0u8,
        }
}

/// Whether `fills` is a way to write `lengths` down.
pub open spec fn fills_tell(fills: Seq<Fill>, lengths: Seq<u8>) -> bool
    decreases fills.len(),
{
    if fills.len() == 0 {
        lengths.len() == 0
    } else {
        let n = lengths.len() - fill_width(fills.last());
        &&& fill_tells(fills.last(), n, lengths)
        &&& fills_tell(fills.drop_last(), lengths.take(n))
    }
}

/// The symbols of the code that code lengths are written with, in the order in
/// which their own lengths are.
pub const CODE_ORDER: [u8; 19] = [
    16, 17, 18, 0, 8, 7, 9, 6, 10, 5, 11, 4, 12, 3, 13, 2, 14, 1, 15,
];

/// The lengths of the first `n` symbols in that order.
pub open spec fn code_code_bits(code: Seq<u8>, n: int) -> Seq<bool>
    decreases n,
{
    if n <= 0 {
        Seq::empty()
    } else {
        code_code_bits(code, n - 1) + plain_number(code[CODE_ORDER@[n - 1] as int] as nat, 3)
    }
}

/// The codes that a block brings along.
pub struct Codes {
    /// The lengths of the code that the others are written with.
    pub code: Seq<u8>,
    /// How many of these are written down.
    pub given: int,
    /// How the lengths of the other two are written down, one after the other.
    pub fills: Seq<Fill>,
    /// The lengths of the code for bytes, lengths and the end of the block.
    pub lits: Seq<u8>,
    /// The lengths of the code for distances.
    pub dists: Seq<u8>,
}

pub open spec fn codes_possible(codes: Codes) -> bool {
    &&& codes.code.len() == 19
    &&& 4 <= codes.given <= 19
    &&& forall|i: int| 0 <= i < 19 ==> #[trigger] codes.code[CODE_ORDER@[i] as int] <= 7
    &&& forall|i: int| codes.given <= i < 19 ==> #[trigger] codes.code[CODE_ORDER@[i] as int] == 0
    &&& whole(codes.code)
    &&& forall|i: int| 0 <= i < codes.fills.len() ==> fill_writable(codes.code, #[trigger] codes.fills[i])
    &&& fills_tell(codes.fills, codes.lits + codes.dists)
    &&& 257 <= codes.lits.len() <= 286
    &&& 1 <= codes.dists.len() <= 30
    &&& codes.lits[256] > 0
    &&& usable(codes.lits)
    &&& usable(codes.dists)
}

pub open spec fn codes_bits(codes: Codes) -> Seq<bool> {
    plain_number((codes.lits.len() - 257) as nat, 5) + (plain_number((codes.dists.len() - 1) as nat, 5)
        + (plain_number((codes.given - 4) as nat, 4) + (code_code_bits(codes.code, codes.given)
        + fills_bits(codes.code, codes.fills))))
}

/// The code for bytes, lengths and the end of a block that brings none along.
pub open spec fn usual_lits() -> Seq<u8> {
    Seq::new(144, |i: int| 8u8) + Seq::new(112, |i: int| 9u8) + Seq::new(24, |i: int| 7u8) + Seq::new(
        8,
        |i: int| 8u8,
    )
}

/// The code for distances of a block that brings none along.
pub open spec fn usual_dists() -> Seq<u8> {
    Seq::new(32, |i: int| 5u8)
}

/// What a stream is made of.
pub enum Block {
    /// Bytes as they are, after some bits up to a byte boundary.
    Stored(Seq<bool>, Seq<u8>),
    /// Items, written with the usual codes.
    Usual(Seq<Item>),
    /// Items, written with codes of their own.
    Own(Codes, Seq<Item>),
}

pub open spec fn block_lits(block: Block) -> Seq<u8> {
    match block {
        Block::Own(codes, _) => codes.lits,
        _ => usual_lits(),
    }
}

pub open spec fn block_dists(block: Block) -> Seq<u8> {
    match block {
        Block::Own(codes, _) => codes.dists,
        _ => usual_dists(),
    }
}

pub open spec fn block_items(block: Block) -> Seq<Item> {
    match block {
        Block::Stored(_, _) => Seq::empty(),
        Block::Usual(items) => items,
        Block::Own(_, items) => items,
    }
}

/// Whether there can be such a block at bit position `pos`.
pub open spec fn block_possible(block: Block, pos: int) -> bool {
    &&& match block {
        Block::Stored(pad, bytes) => (pos + 3 + pad.len()) % 8 == 0 && pad.len() < 8 && bytes.len() < 0x1_0000,
        Block::Usual(_) => true,
        Block::Own(codes, _) => codes_possible(codes),
    }
    &&& forall|i: int|
        0 <= i < block_items(block).len() ==> writable(
            block_lits(block),
            block_dists(block),
            #[trigger] block_items(block)[i],
        )
}

/// A block, the last one or not, as it is written.
pub open spec fn block_written(block: Block, last: bool) -> Seq<bool> {
    match block {
        Block::Stored(pad, bytes) => seq![last, false, false] + (pad + (plain_number(bytes.len(), 16)
            + plain_number((0xffff - bytes.len()) as nat, 16) + plain_bytes(bytes))),
        Block::Usual(items) => seq![last, true, false] + (items_bits(
            usual_lits(),
            usual_dists(),
            items,
        ) + symbol(usual_lits(), 256)),
        Block::Own(codes, items) => seq![last, false, true] + (codes_bits(codes) + (items_bits(
            codes.lits,
            codes.dists,
            items,
        ) + symbol(codes.lits, 256))),
    }
}

pub open spec fn items_width(items: Seq<Item>) -> int
    decreases items.len(),
{
    if items.len() == 0 {
        0
    } else {
        items_width(items.drop_last()) + width(items.last())
    }
}

/// Whether a block takes the data from `before` to `after`.
pub open spec fn block_tells(block: Block, before: Seq<u8>, after: Seq<u8>) -> bool {
    match block {
        Block::Stored(_, bytes) => after == before + bytes,
        _ => items_tell(block_items(block), before, after),
    }
}

pub open spec fn block_width(block: Block) -> int {
    match block {
        Block::Stored(_, bytes) => bytes.len() as int,
        _ => items_width(block_items(block)),
    }
}

/// Blocks, one right after the other, of which only the last one may be marked
/// as such.
pub open spec fn blocks_written(blocks: Seq<Block>, closed: bool) -> Seq<bool>
    decreases blocks.len(),
{
    if blocks.len() == 0 {
        Seq::empty()
    } else {
        blocks_written(blocks.drop_last(), false) + block_written(blocks.last(), closed)
    }
}

/// Whether there can be such blocks from bit position `pos` on.
pub open spec fn blocks_possible(blocks: Seq<Block>, pos: int) -> bool
    decreases blocks.len(),
{
    blocks.len() > 0 ==> {
        &&& blocks_possible(blocks.drop_last(), pos)
        &&& block_possible(blocks.last(), pos + blocks_written(blocks.drop_last(), false).len())
    }
}

/// Whether blocks take the data from `before` to `after`.
pub open spec fn blocks_tell(blocks: Seq<Block>, before: Seq<u8>, after: Seq<u8>) -> bool
    decreases blocks.len(),
{
    if blocks.len() == 0 {
        after == before
    } else {
        let n = after.len() - block_width(blocks.last());
        &&& 0 <= n
        &&& block_tells(blocks.last(), after.take(n), after)
        &&& blocks_tell(blocks.drop_last(), before, after.take(n))
    }
}

/// Whether no copy in `blocks` reaches further back than `reach`.
pub open spec fn reached(blocks: Seq<Block>, reach: int) -> bool {
    forall|i: int, k: int|
        0 <= i < blocks.len() && 0 <= k < block_items(blocks[i]).len() ==> distance(
            #[trigger] block_items(#[trigger] blocks[i])[k],
        ) <= reach
}

/// Whether `data` is a deflate stream, from its first byte to its last, that
/// `blocks` make and that stands for `plain`.
pub open spec fn deflated(blocks: Seq<Block>, data: Seq<u8>, plain: Seq<u8>) -> bool {
    let bits = blocks_written(blocks, true);
    &&& blocks.len() > 0
    &&& blocks_possible(blocks, 0)
    &&& blocks_tell(blocks, Seq::empty(), plain)
    &&& shows(data, 0, bits)
    &&& bit_len(data) < bits.len() + 8
}

/// A number, in `n` bytes, the least significant first.
pub open spec fn low_first(value: int, n: nat) -> Seq<u8>
    decreases n,
{
    if n == 0 {
        Seq::empty()
    } else {
        seq![(value % 256) as u8] + low_first(value / 256, (n - 1) as nat)
    }
}

/// A number, in `n` bytes, the most significant first.
pub open spec fn high_first(value: int, n: nat) -> Seq<u8>
    decreases n,
{
    if n == 0 {
        Seq::empty()
    } else {
        high_first(value / 256, (n - 1) as nat).push((value % 256) as u8)
    }
}

/// What a gzip member says of the file it holds (RFC 1952).
pub struct Header {
    /// Whether this may be text.
    pub text: bool,
    /// When it was modified, in four bytes, how it was compressed, and where.
    pub facts: Seq<u8>,
    /// Whatever else.
    pub extra: Option<Seq<u8>>,
    /// Its name.
    pub name: Option<Seq<u8>>,
    /// A comment.
    pub comment: Option<Seq<u8>>,
    /// A checksum of the header, of two bytes.
    pub sum: Option<Seq<u8>>,
}

/// Whether text has no zero, which ends it.
pub open spec fn textual(text: Option<Seq<u8>>) -> bool {
    text matches Some(text) ==> forall|i: int| 0 <= i < text.len() ==> #[trigger] text[i] != 0
}

pub open spec fn header_possible(header: Header) -> bool {
    &&& header.facts.len() == 6
    &&& header.extra matches Some(extra) ==> extra.len() < 0x1_0000
    &&& textual(header.name)
    &&& textual(header.comment)
    &&& header.sum matches Some(sum) ==> sum.len() == 2
}

/// The flags that tell what there is to a header.
pub open spec fn flags_of(header: Header) -> int {
    (if header.text {
        1int
    } else {
        0
    }) + (if header.sum is Some {
        2int
    } else {
        0
    }) + (if header.extra is Some {
        4int
    } else {
        0
    }) + (if header.name is Some {
        8int
    } else {
        0
    }) + (if header.comment is Some {
        16int
    } else {
        0
    })
}

/// The extra field, as it is written.
pub open spec fn extra_bytes(extra: Option<Seq<u8>>) -> Seq<u8> {
    match extra {
        Some(extra) => low_first(extra.len() as int, 2) + extra,
        None => Seq::empty(),
    }
}

/// Text, as it is written.
pub open spec fn text_bytes(text: Option<Seq<u8>>) -> Seq<u8> {
    match text {
        Some(text) => text.push(0),
        None => Seq::empty(),
    }
}

/// The checksum of a header, as it is written.
pub open spec fn sum_bytes(sum: Option<Seq<u8>>) -> Seq<u8> {
    match sum {
        Some(sum) => sum,
        None => Seq::empty(),
    }
}

/// A header, as it is written.
pub open spec fn header_bytes(header: Header) -> Seq<u8> {
    seq![0x1f, 0x8b, 8, flags_of(header) as u8] + header.facts + extra_bytes(header.extra) + text_bytes(
        header.name,
    ) + text_bytes(header.comment) + sum_bytes(header.sum)
}

/// Whether two bytes make a zlib header (RFC 1950): deflate, with a window of at
/// most 32 KiB, no dictionary, and a check that fits.
pub open spec fn zlib_header_possible(method: u8, flags: u8) -> bool {
    &&& method % 16 == 8
    &&& method / 16 <= 7
    &&& (flags / 32) % 2 == 0
    &&& (256 * method + flags) % 31 == 0
}

/// A raw stream, in a zlib frame.
pub open spec fn zlib_framed(method: u8, flags: u8, raw: Seq<u8>, plain: Seq<u8>) -> Seq<u8> {
    seq![method, flags] + raw + high_first(adler32(plain), 4)
}

/// A raw stream, in a gzip frame.
pub open spec fn gzip_framed(header: Header, raw: Seq<u8>, plain: Seq<u8>) -> Seq<u8> {
    header_bytes(header) + raw + low_first(crc32(plain) as int, 4) + low_first(
        plain.len() as int % 0x1_0000_0000,
        4,
    )
}

} // verus!
