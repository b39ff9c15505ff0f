//! What data compresses to: greedy LZ77 over a single-probe hash table, coded
//! with deflate's fixed Huffman codes.
//!
//! The data comes in chunks, each of which makes a block of its own, and
//! matches are only looked for within one.

use vstd::arithmetic::power2::pow2;
use vstd::prelude::*;

use crate::decoding::{fixed_dist_code, fixed_len_code, trailer_sum, Kind};
use crate::huffman::code_of;
use crate::output::joined;

verus! {

/// The `n` low bits of `value`, the least significant first: plain numbers are
/// stored this way.
pub open spec fn number_bits(value: nat, n: nat) -> Seq<bool> {
    Seq::new(n, |i: int| (value / pow2(i as nat)) % 2 == 1)
}

/// The `n` low bits of `code`, the most significant first: Huffman codes are
/// stored this way.
pub open spec fn code_bits(code: nat, n: nat) -> Seq<bool> {
    Seq::new(n, |i: int| (code / pow2((n - 1 - i) as nat)) % 2 == 1)
}

/// A symbol of the code with the given lengths.
pub open spec fn symbol_bits(lengths: Seq<u8>, symbol: int) -> Seq<bool> {
    code_bits(code_of(lengths, symbol), lengths[symbol] as nat)
}

/// The number that some bits stand for, the least significant first.
pub open spec fn bits_value(bits: Seq<bool>) -> nat
    decreases bits.len(),
{
    if bits.len() == 0 {
        0
    } else {
        (if bits[0] {
            1nat
        } else {
            0nat
        }) + 2 * bits_value(bits.skip(1))
    }
}

/// The bytes that some bits make, but for the last bits that do not make one.
pub open spec fn packed(bits: Seq<bool>) -> Seq<u8> {
    Seq::new(bits.len() / 8, |i: int| bits_value(bits.subrange(8 * i, 8 * i + 8)) as u8)
}

/// The zeros that it takes to get to a byte boundary.
pub open spec fn padding(bits: Seq<bool>) -> Seq<bool> {
    Seq::new(((8 - bits.len() % 8) % 8) as nat, |i: int| false)
}

/// Bytes, on a byte boundary.
pub open spec fn byte_bits(bytes: Seq<u8>) -> Seq<bool>
    decreases bytes.len(),
{
    if bytes.len() == 0 {
        Seq::empty()
    } else {
        byte_bits(bytes.drop_last()) + number_bits(bytes.last() as nat, 8)
    }
}

/// What a chunk is made of.
pub enum Token {
    /// A byte.
    Literal(u8),
    /// So many bytes, from so far back.
    Match(int, int),
}

/// How many times `l` has to be halved to get below `limit`.
pub open spec fn halvings(l: nat, limit: nat) -> nat
    decreases l,
{
    if l < limit || limit == 0 {
        0
    } else {
        1 + halvings(l / 2, limit)
    }
}

/// The symbol of a length, the first one being zero.
pub open spec fn length_symbol(len: int) -> int {
    let l = (len - 3) as nat;
    let extra = halvings(l, 8);
    (4 * extra + l / pow2(extra)) as int
}

/// A length: its symbol, and the extra bits that follow it.
pub open spec fn length_bits(len: int) -> Seq<bool> {
    let l = (len - 3) as nat;
    let extra = halvings(l, 8);
    if len == 258 {
        symbol_bits(fixed_len_code(), 285)
    } else {
        symbol_bits(fixed_len_code(), 257 + length_symbol(len)) + number_bits(l % pow2(extra), extra)
    }
}

/// The symbol of a distance.
pub open spec fn dist_symbol(dist: int) -> int {
    let d = (dist - 1) as nat;
    let extra = halvings(d, 4);
    (2 * extra + d / pow2(extra)) as int
}

/// A distance: its symbol, and the extra bits that follow it.
pub open spec fn distance_bits(dist: int) -> Seq<bool> {
    let d = (dist - 1) as nat;
    let extra = halvings(d, 4);
    symbol_bits(fixed_dist_code(), dist_symbol(dist)) + number_bits(d % pow2(extra), extra)
}

pub open spec fn token_bits(token: Token) -> Seq<bool> {
    match token {
        Token::Literal(byte) => symbol_bits(fixed_len_code(), byte as int),
        Token::Match(len, dist) => length_bits(len) + distance_bits(dist),
    }
}

/// How much of the table gets used: the largest power of two that fits.
pub open spec fn table_size(len: nat) -> nat
    decreases len,
{
    if len <= 1 {
        len
    } else {
        2 * table_size(len / 2)
    }
}

/// Where in a table of `size` entries three bytes go.
pub open spec fn slot(a: u8, b: u8, c: u8, size: nat) -> int {
    let v = (a + 0x100 * b + 0x1_0000 * c) as u64;
    let x = ((v * 0x9e37_79b1) % 0x1_0000_0000) as u64;
    (x ^ (x >> 15)) as int % size as int
}

/// Whether the three bytes at `pos` are to be found, and entered, in a table
/// of `size` entries.
pub open spec fn probes(chunk: Seq<u8>, pos: int, size: nat) -> bool {
    size > 0 && pos + 3 <= chunk.len()
}

pub open spec fn slot_at(chunk: Seq<u8>, pos: int, size: nat) -> int {
    slot(chunk[pos], chunk[pos + 1], chunk[pos + 2], size)
}

/// How far back `entry` is from `pos`: positions are kept modulo 65536.
pub open spec fn back(pos: int, entry: u16) -> int {
    (pos - entry) % 0x1_0000
}

/// How many bytes, at most `most`, are the same at `pos` and `dist` bytes
/// back.
pub open spec fn run(chunk: Seq<u8>, pos: int, dist: int, most: nat) -> nat
    decreases most,
{
    if most == 0 || pos >= chunk.len() || chunk[pos] != chunk[pos - dist] {
        0
    } else {
        1 + run(chunk, pos + 1, dist, (most - 1) as nat)
    }
}

/// What comes at `pos`. What the table holds is checked against the data.
pub open spec fn token(table: Seq<u16>, chunk: Seq<u8>, pos: int, size: nat) -> Token {
    let dist = back(pos, table[slot_at(chunk, pos, size)]);
    if probes(chunk, pos, size) && 1 <= dist <= 32768 && dist <= pos && run(chunk, pos, dist, 258) >= 3 {
        Token::Match(run(chunk, pos, dist, 258) as int, dist)
    } else {
        Token::Literal(chunk[pos])
    }
}

/// The table once position `pos` has been entered.
pub open spec fn entered(table: Seq<u16>, chunk: Seq<u8>, pos: int, size: nat) -> Seq<u16> {
    if probes(chunk, pos, size) {
        table.update(slot_at(chunk, pos, size), (pos % 0x1_0000) as u16)
    } else {
        table
    }
}

/// How many bytes a token stands for.
pub open spec fn reach(token: Token) -> int {
    match token {
        Token::Literal(_) => 1,
        Token::Match(len, _) => len,
    }
}

/// How many bytes of `chunk` are left at `pos`.
pub open spec fn bytes_left(chunk: Seq<u8>, pos: int) -> int {
    if pos < chunk.len() {
        chunk.len() - pos
    } else {
        0
    }
}

/// The bits that a chunk makes from `pos` on.
pub open spec fn tokens_bits(table: Seq<u16>, chunk: Seq<u8>, pos: int, size: nat) -> Seq<bool>
    decreases bytes_left(chunk, pos),
{
    if pos >= chunk.len() {
        Seq::empty()
    } else {
        let t = token(table, chunk, pos, size);
        token_bits(t) + tokens_bits(entered(table, chunk, pos, size), chunk, pos + reach(t), size)
    }
}

/// The header of a block that is coded with the fixed codes.
pub open spec fn block_bits(last: bool) -> Seq<bool> {
    seq![last, true, false]
}

/// The end of a block.
pub open spec fn end_bits() -> Seq<bool> {
    symbol_bits(fixed_len_code(), 256)
}

/// A table of `size` entries that nothing was entered in yet.
pub open spec fn clear_table(size: nat) -> Seq<u16> {
    Seq::new(size, |i: int| 0u16)
}

/// The block that a chunk makes, if there is anything in it, given how many
/// entries the table has. What they held before makes no difference.
pub open spec fn chunk_bits(entries: nat, chunk: Seq<u8>) -> Seq<bool> {
    let size = table_size(entries);
    if chunk.len() == 0 {
        Seq::empty()
    } else {
        block_bits(false) + tokens_bits(clear_table(size), chunk, 0, size) + end_bits()
    }
}

/// The blocks that chunks make.
pub open spec fn chunks_bits(entries: nat, chunks: Seq<Seq<u8>>) -> Seq<bool>
    decreases chunks.len(),
{
    if chunks.len() == 0 {
        Seq::empty()
    } else {
        chunks_bits(entries, chunks.drop_last()) + chunk_bits(entries, chunks.last())
    }
}

/// The empty block that ends a deflate stream.
pub open spec fn final_bits() -> Seq<bool> {
    block_bits(true) + end_bits()
}

/// What comes before the deflate stream.
pub open spec fn header_of(kind: Kind) -> Seq<u8> {
    match kind {
        // Deflate, no flags, no modification time, no extra flags, unknown OS.
        Kind::Gzip => seq![0x1f, 0x8b, 8, 0, 0, 0, 0, 0, 0, 0xff],
        // Deflate with a 32 KiB window, fastest algorithm, no dictionary.
        Kind::Zlib => seq![0x78, 0x01],
        _ => Seq::empty(),
    }
}

/// What comes after the deflate stream, given its data.
pub open spec fn trailer_of(kind: Kind, data: Seq<u8>) -> Seq<u32> {
    match kind {
        Kind::Gzip => seq![trailer_sum(true, data) as u32, (data.len() % 0x1_0000_0000) as u32],
        Kind::Zlib => seq![trailer_sum(false, data) as u32],
        _ => Seq::empty(),
    }
}

/// Words, in little-endian order.
pub open spec fn word_bits(words: Seq<u32>) -> Seq<bool>
    decreases words.len(),
{
    if words.len() == 0 {
        Seq::empty()
    } else {
        word_bits(words.drop_last()) + number_bits(words.last() as nat, 32)
    }
}

/// The header of a stream, and what its chunks make.
pub open spec fn body_bits(kind: Kind, entries: nat, chunks: Seq<Seq<u8>>) -> Seq<bool> {
    byte_bits(header_of(kind)) + chunks_bits(entries, chunks)
}

/// A deflate stream, up to a byte boundary, given all of it but its end.
pub open spec fn ended_bits(bits: Seq<bool>) -> Seq<bool> {
    bits + final_bits() + padding(bits + final_bits())
}

/// A whole stream.
pub open spec fn stream_bits(kind: Kind, entries: nat, chunks: Seq<Seq<u8>>) -> Seq<bool> {
    ended_bits(body_bits(kind, entries, chunks)) + word_bits(trailer_of(kind, joined(chunks)))
}

} // verus!
