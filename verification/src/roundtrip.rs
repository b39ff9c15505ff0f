//! What was compressed decompresses to what it was.

use vstd::arithmetic::div_mod::lemma_fundamental_div_mod;
use vstd::arithmetic::power2::{lemma2_to64, lemma_pow2_pos, lemma_pow2_unfold, pow2};
use vstd::prelude::*;

use crate::bits::{bit_len, number};
use crate::checksum::adler32;
use crate::decoding::{
    advance, block_ended, dist_base, dist_extra, fixed_dist_code, fixed_len_code, lemma_at_block,
    lemma_at_checksum, lemma_at_distance, lemma_at_end, lemma_at_fields, lemma_at_length,
    lemma_at_member, lemma_at_next, lemma_at_size, lemma_at_skip, lemma_at_start, length_base,
    length_extra, marked, origin, read, step, swapped, Kind, Progress, Setup, State,
};
use crate::encoding::{
    block_bits, body_bits, byte_bits, chunk_bits, chunks_bits, clear_table, dist_symbol,
    distance_bits, end_bits, ended_bits, entered, final_bits, halvings, header_of, length_bits,
    length_symbol, number_bits, packed, padding, reach, run, stream_bits, symbol_bits, table_size,
    token, token_bits, tokens_bits, trailer_of, word_bits, Token,
};
use crate::output::{copied, joined, Terms};
use crate::single::{lemma_beyond, up_to_next};
use crate::spelling::{
    at, lemma_at_parts, lemma_dist_symbol_spelt, lemma_halved, lemma_len_symbol_spelt,
    lemma_number_spelt, lemma_packed, spells,
};
use crate::steps::lemma_small_powers;

verus! {

/// What is left of a number that was halved until it got below `limit`.
proof fn lemma_halvings(l: nat, limit: nat)
    requires
        limit == 4 || limit == 8,
    ensures
        l / pow2(halvings(l, limit)) < limit,
        l >= limit ==> l / pow2(halvings(l, limit)) >= limit / 2,
        l >= limit ==> halvings(l, limit) >= 1,
    decreases l,
{
    assert(pow2(0) == 1) by {
        lemma2_to64();
    }
    if l >= limit {
        let h = halvings(l / 2, limit);
        lemma_halvings(l / 2, limit);
        lemma_halved(l, h);
        if l / 2 < limit {
            assert(h == 0);
            assert((l / 2) / 1 == l / 2);
        }
    } else {
        assert(l / 1 == l);
    }
}

proof fn lemma_halvings_bound(l: nat, limit: nat, m: nat)
    requires
        limit == 4 || limit == 8,
        l < limit * pow2(m),
    ensures
        halvings(l, limit) <= m,
    decreases m,
{
    assert(pow2(0) == 1) by {
        lemma2_to64();
    }
    if l >= limit {
        assert(m > 0);
        lemma_pow2_unfold(m);
        assert(l / 2 < limit * pow2((m - 1) as nat)) by (nonlinear_arith)
            requires
                l < limit * pow2(m),
                pow2(m) == 2 * pow2((m - 1) as nat),
        ;
        lemma_halvings_bound(l / 2, limit, (m - 1) as nat);
    }
}

/// The symbol of a length, and the extra bits, stand for that length.
pub proof fn lemma_length_symbol(len: int)
    requires
        3 <= len < 258,
    ensures
        ({
            let l = (len - 3) as nat;
            let extra = halvings(l, 8);
            let s = length_symbol(len);
            &&& 0 <= s < 28
            &&& extra <= 5
            &&& length_extra(s) == extra
            &&& l % pow2(extra) < pow2(extra)
            &&& length_base(s) + l % pow2(extra) == len
        }),
{
    let l = (len - 3) as nat;
    let extra = halvings(l, 8);
    let q = l / pow2(extra);
    lemma_small_powers();
    lemma_halvings(l, 8);
    lemma_halvings_bound(l, 8, 5);
    lemma_pow2_pos(extra);
    lemma_fundamental_div_mod(l as int, pow2(extra) as int);
    assert(pow2(extra) * q == q * pow2(extra)) by (nonlinear_arith);
    if extra == 0 {
        assert(l / 1 == l && l % 1 == 0);
        if l < 4 {
        } else {
            assert(length_base(l as int) == (4 + l as int % 4) * 1 + 3);
        }
    } else {
        assert(q == 4 || q == 5 || q == 6 || q == 7);
        let s = (4 * extra + q) as int;
        assert(4 + s % 4 == q);
    }
}

/// The symbol of a distance, and the extra bits, stand for that distance.
pub proof fn lemma_dist_symbol(dist: int)
    requires
        1 <= dist <= 32768,
    ensures
        ({
            let d = (dist - 1) as nat;
            let extra = halvings(d, 4);
            let s = dist_symbol(dist);
            &&& 0 <= s < 30
            &&& extra <= 13
            &&& dist_extra(s) == extra
            &&& d % pow2(extra) < pow2(extra)
            &&& dist_base(s) + d % pow2(extra) == dist
        }),
{
    let d = (dist - 1) as nat;
    let extra = halvings(d, 4);
    let q = d / pow2(extra);
    lemma_small_powers();
    lemma_halvings(d, 4);
    lemma_halvings_bound(d, 4, 13);
    lemma_pow2_pos(extra);
    lemma_fundamental_div_mod(d as int, pow2(extra) as int);
    assert(pow2(extra) * q == q * pow2(extra)) by (nonlinear_arith);
    if extra == 0 {
        assert(d / 1 == d && d % 1 == 0);
        if d >= 2 {
            assert(dist_base(d as int) == (2 + d as int % 2) * 1 + 1);
        }
    } else {
        assert(q == 2 || q == 3);
        let s = (2 * extra + q) as int;
        assert(2 + s % 2 == q);
    }
}

/// A run is one.
pub proof fn lemma_run(chunk: Seq<u8>, pos: int, dist: int, most: nat)
    requires
        0 <= pos <= chunk.len(),
    ensures
        run(chunk, pos, dist, most) <= most,
        pos + run(chunk, pos, dist, most) <= chunk.len(),
        forall|i: int|
            pos <= i < pos + run(chunk, pos, dist, most) ==> #[trigger] chunk[i] == chunk[i - dist],
    decreases most,
{
    if most > 0 && pos < chunk.len() && chunk[pos] == chunk[pos - dist] {
        lemma_run(chunk, pos + 1, dist, (most - 1) as nat);
    }
}

/// What a token can be.
pub proof fn lemma_token(table: Seq<u16>, chunk: Seq<u8>, pos: int, size: nat)
    requires
        0 <= pos < chunk.len(),
    ensures
        match token(table, chunk, pos, size) {
            Token::Literal(byte) => byte == chunk[pos],
            Token::Match(len, dist) => {
                &&& 3 <= len <= 258
                &&& pos + len <= chunk.len()
                &&& 1 <= dist <= 32768
                &&& dist <= pos
                &&& forall|i: int| pos <= i < pos + len ==> #[trigger] chunk[i] == chunk[i - dist]
            },
        },
{
    if let Token::Match(len, dist) = token(table, chunk, pos, size) {
        lemma_run(chunk, pos, dist, 258);
    }
}

/// A copy of a run is that run.
proof fn lemma_copied_run(base: Seq<u8>, chunk: Seq<u8>, pos: int, dist: int, len: nat)
    requires
        1 <= dist <= pos,
        pos + len <= chunk.len(),
        forall|i: int| pos <= i < pos + len ==> #[trigger] chunk[i] == chunk[i - dist],
    ensures
        copied(base + chunk.take(pos), dist, len) == base + chunk.take(pos + len),
    decreases len,
{
    if len > 0 {
        let shorter = (len - 1) as nat;
        lemma_copied_run(base, chunk, pos, dist, shorter);
        let so_far = base + chunk.take(pos + shorter);
        assert(so_far[so_far.len() - dist] == chunk[pos + shorter - dist]);
        assert(chunk[pos + shorter] == chunk[pos + shorter - dist]);
        assert(so_far.push(chunk[pos + shorter]) =~= base + chunk.take(pos + len));
    }
}

/// Whether an output takes a history of `len` bytes, all of it in reach of
/// copies as far as these go.
pub open spec fn roomy(terms: Terms, len: int) -> bool {
    &&& len <= terms.most
    &&& len <= terms.reach || 32768 <= terms.reach
}

/// A token is decoded to what it stands for.
proof fn lemma_token_decoded(
    setup: Setup,
    data: Seq<u8>,
    bits: Seq<bool>,
    table: Seq<u16>,
    base: Seq<u8>,
    chunk: Seq<u8>,
    pos: int,
    size: nat,
    p: Progress,
)
    requires
        spells(data, bits),
        0 <= pos < chunk.len(),
        at(bits, p.pos, token_bits(token(table, chunk, pos, size))),
        p.state is Length,
        p.len_code == fixed_len_code(),
        p.dist_code == fixed_dist_code(),
        p.out == base + chunk.take(pos),
        roomy(setup.terms, (base.len() + chunk.len()) as int),
    ensures
        ({
            let t = token(table, chunk, pos, size);
            up_to_next(setup, data, p) == up_to_next(
                setup,
                data,
                (Progress {
                    pos: p.pos + token_bits(t).len(),
                    out: base + chunk.take(pos + reach(t)),
                    ..p
                }),
            )
        }),
{
    let t = token(table, chunk, pos, size);
    lemma_token(table, chunk, pos, size);
    lemma_small_powers();
    match t {
        Token::Literal(byte) => {
            lemma_len_symbol_spelt(data, bits, p.pos, byte as int);
            lemma_at_length(setup, p);
            lemma_next(setup, data, p);
            assert(p.out.push(byte) =~= base + chunk.take(pos + 1));
        },
        Token::Match(len, dist) => {
            lemma_at_parts(bits, p.pos, length_bits(len), distance_bits(dist));
            let mid = Progress {
                state: State::Distance(len as u32),
                pos: p.pos + length_bits(len).len(),
                ..p
            };
            lemma_length_decoded(setup, data, bits, len, p);
            lemma_distance_decoded(setup, data, bits, len, dist, mid);
            lemma_copied_run(base, chunk, pos, dist, len as nat);
        },
    }
}

/// Taking the next step is going on, up to where another member may follow.
pub proof fn lemma_next(setup: Setup, data: Seq<u8>, p: Progress)
    ensures
        match step(setup, data, p) {
            Some(q) => p.state !is Next ==> up_to_next(setup, data, p) == up_to_next(setup, data, q),
            None => up_to_next(setup, data, p) == p,
        },
        p.state is Next ==> up_to_next(setup, data, p) == p,
{
    reveal(up_to_next);
}

proof fn lemma_length_decoded(setup: Setup, data: Seq<u8>, bits: Seq<bool>, len: int, p: Progress)
    requires
        spells(data, bits),
        3 <= len <= 258,
        at(bits, p.pos, length_bits(len)),
        p.state is Length,
        p.len_code == fixed_len_code(),
    ensures
        up_to_next(setup, data, p) == up_to_next(
            setup,
            data,
            (Progress {
                state: State::Distance(len as u32),
                pos: p.pos + length_bits(len).len(),
                ..p
            }),
        ),
{
    lemma_at_length(setup, p);
    lemma_next(setup, data, p);
    if len == 258 {
        lemma_len_symbol_spelt(data, bits, p.pos, 285);
        assert(number(data, p.pos + 8, 0) == 0);
        assert(symbol_bits(fixed_len_code(), 285).len() == 8);
    } else {
        let l = (len - 3) as nat;
        let extra = halvings(l, 8);
        let s = length_symbol(len);
        lemma_length_symbol(len);
        let a = symbol_bits(fixed_len_code(), 257 + s);
        let b = number_bits(l % pow2(extra), extra);
        assert(length_bits(len) == a + b);
        lemma_at_parts(bits, p.pos, a, b);
        lemma_len_symbol_spelt(data, bits, p.pos, 257 + s);
        lemma_number_spelt(data, bits, p.pos + a.len(), l % pow2(extra), extra);
    }
}

proof fn lemma_distance_decoded(
    setup: Setup,
    data: Seq<u8>,
    bits: Seq<bool>,
    len: int,
    dist: int,
    p: Progress,
)
    requires
        spells(data, bits),
        1 <= dist <= 32768,
        3 <= len <= 258,
        at(bits, p.pos, distance_bits(dist)),
        p.state == State::Distance(len as u32),
        p.dist_code == fixed_dist_code(),
        dist <= p.out.len(),
        roomy(setup.terms, p.out.len() + len),
    ensures
        up_to_next(setup, data, p) == up_to_next(
            setup,
            data,
            (Progress {
                state: State::Length,
                pos: p.pos + distance_bits(dist).len(),
                out: copied(p.out, dist, len as nat),
                ..p
            }),
        ),
{
    let d = (dist - 1) as nat;
    let extra = halvings(d, 4);
    let s = dist_symbol(dist);
    lemma_dist_symbol(dist);
    lemma_at_distance(setup, p);
    lemma_next(setup, data, p);
    let a = symbol_bits(fixed_dist_code(), s);
    let b = number_bits(d % pow2(extra), extra);
    assert(distance_bits(dist) == a + b);
    lemma_at_parts(bits, p.pos, a, b);
    lemma_dist_symbol_spelt(data, bits, p.pos, s);
    lemma_number_spelt(data, bits, p.pos + a.len(), d % pow2(extra), extra);
    assert(a.len() == 5);
}

/// The tokens of a chunk are decoded to the rest of it.
proof fn lemma_tokens_decoded(
    setup: Setup,
    data: Seq<u8>,
    bits: Seq<bool>,
    table: Seq<u16>,
    base: Seq<u8>,
    chunk: Seq<u8>,
    pos: int,
    size: nat,
    p: Progress,
)
    requires
        spells(data, bits),
        0 <= pos <= chunk.len(),
        at(bits, p.pos, tokens_bits(table, chunk, pos, size)),
        p.state is Length,
        p.len_code == fixed_len_code(),
        p.dist_code == fixed_dist_code(),
        p.out == base + chunk.take(pos),
        roomy(setup.terms, (base.len() + chunk.len()) as int),
    ensures
        up_to_next(setup, data, p) == up_to_next(
            setup,
            data,
            (Progress {
                pos: p.pos + tokens_bits(table, chunk, pos, size).len(),
                out: base + chunk,
                ..p
            }),
        ),
    decreases chunk.len() - pos,
{
    if pos < chunk.len() {
        let t = token(table, chunk, pos, size);
        let next = entered(table, chunk, pos, size);
        let rest = tokens_bits(next, chunk, pos + reach(t), size);
        lemma_token(table, chunk, pos, size);
        lemma_at_parts(bits, p.pos, token_bits(t), rest);
        lemma_token_decoded(setup, data, bits, table, base, chunk, pos, size, p);
        let q = Progress {
            pos: p.pos + token_bits(t).len(),
            out: base + chunk.take(pos + reach(t)),
            ..p
        };
        lemma_tokens_decoded(setup, data, bits, next, base, chunk, pos + reach(t), size, q);
        assert(tokens_bits(table, chunk, pos, size) == token_bits(t) + rest);
    } else {
        assert(chunk.take(pos) =~= chunk);
        assert(tokens_bits(table, chunk, pos, size).len() == 0);
    }
}

/// The header of a block is decoded.
proof fn lemma_block_opened(setup: Setup, data: Seq<u8>, bits: Seq<bool>, last: bool, p: Progress)
    requires
        spells(data, bits),
        at(bits, p.pos, block_bits(last)),
        p.state is Block,
    ensures
        up_to_next(setup, data, p) == up_to_next(
            setup,
            data,
            (Progress {
                state: State::Length,
                pos: p.pos + 3,
                last,
                len_code: fixed_len_code(),
                dist_code: fixed_dist_code(),
                ..p
            }),
        ),
{
    let part = block_bits(last);
    let pos = p.pos;
    assert(bits[pos + 0] == part[0] && bits[pos + 1] == part[1] && bits[pos + 2] == part[2]);
    assert(number(data, pos + 1, 0) == 0 && number(data, pos + 3, 0) == 0);
    assert(number(data, pos, 1) == (if last {
        1nat
    } else {
        0nat
    }));
    assert(number(data, pos + 2, 1) == 0);
    assert(number(data, pos + 1, 2) == 1);
    lemma_at_block(setup, p);
    lemma_next(setup, data, p);
}

/// The end of a block is decoded.
proof fn lemma_block_closed(setup: Setup, data: Seq<u8>, bits: Seq<bool>, p: Progress)
    requires
        spells(data, bits),
        at(bits, p.pos, end_bits()),
        p.state is Length,
        p.len_code == fixed_len_code(),
    ensures
        up_to_next(setup, data, p) == up_to_next(
            setup,
            data,
            block_ended(setup, (Progress { pos: p.pos + 7, ..p })),
        ),
{
    lemma_len_symbol_spelt(data, bits, p.pos, 256);
    lemma_at_length(setup, p);
    lemma_next(setup, data, p);
}

/// Whether decoding is still about the same stream, between two blocks.
pub open spec fn between_blocks(p: Progress, pos: int, out: Seq<u8>, q: Progress) -> bool {
    &&& q.state is Block
    &&& q.pos == pos
    &&& q.out == out
    &&& q.gzip == p.gzip
    &&& q.start == p.start
}

/// A chunk is decoded to what it was.
proof fn lemma_chunk_decoded(
    setup: Setup,
    data: Seq<u8>,
    bits: Seq<bool>,
    entries: nat,
    chunk: Seq<u8>,
    p: Progress,
) -> (q: Progress)
    requires
        spells(data, bits),
        at(bits, p.pos, chunk_bits(entries, chunk)),
        p.state is Block,
        roomy(setup.terms, (p.out.len() + chunk.len()) as int),
    ensures
        up_to_next(setup, data, p) == up_to_next(setup, data, q),
        between_blocks(p, p.pos + chunk_bits(entries, chunk).len(), p.out + chunk, q),
{
    if chunk.len() == 0 {
        assert(p.out + chunk =~= p.out);
        p
    } else {
        let size = table_size(entries);
        let table = clear_table(size);
        let tokens = tokens_bits(table, chunk, 0, size);
        lemma_at_parts(bits, p.pos, block_bits(false) + tokens, end_bits());
        lemma_at_parts(bits, p.pos, block_bits(false), tokens);
        lemma_block_opened(setup, data, bits, false, p);
        let a = Progress {
            state: State::Length,
            pos: p.pos + 3,
            last: false,
            len_code: fixed_len_code(),
            dist_code: fixed_dist_code(),
            ..p
        };
        assert(p.out + chunk.take(0) =~= p.out);
        lemma_tokens_decoded(setup, data, bits, table, p.out, chunk, 0, size, a);
        let b = Progress { pos: a.pos + tokens.len(), out: p.out + chunk, ..a };
        lemma_block_closed(setup, data, bits, b);
        assert(end_bits().len() == 7);
        block_ended(setup, Progress { pos: b.pos + 7, ..b })
    }
}

/// Chunks are decoded to what they were.
proof fn lemma_chunks_decoded(
    setup: Setup,
    data: Seq<u8>,
    bits: Seq<bool>,
    entries: nat,
    chunks: Seq<Seq<u8>>,
    p: Progress,
) -> (q: Progress)
    requires
        spells(data, bits),
        at(bits, p.pos, chunks_bits(entries, chunks)),
        p.state is Block,
        roomy(setup.terms, (p.out.len() + joined(chunks).len()) as int),
    ensures
        up_to_next(setup, data, p) == up_to_next(setup, data, q),
        between_blocks(p, p.pos + chunks_bits(entries, chunks).len(), p.out + joined(chunks), q),
    decreases chunks.len(),
{
    if chunks.len() == 0 {
        assert(p.out + joined(chunks) =~= p.out);
        p
    } else {
        let first = chunks_bits(entries, chunks.drop_last());
        let more = chunk_bits(entries, chunks.last());
        lemma_at_parts(bits, p.pos, first, more);
        let a = lemma_chunks_decoded(setup, data, bits, entries, chunks.drop_last(), p);
        let b = lemma_chunk_decoded(setup, data, bits, entries, chunks.last(), a);
        assert(p.out + joined(chunks) =~= p.out + joined(chunks.drop_last()) + chunks.last());
        b
    }
}

/// Bytes are read as they were written.
proof fn lemma_bytes_spelt(data: Seq<u8>, bits: Seq<bool>, pos: int, bytes: Seq<u8>, i: int)
    requires
        spells(data, bits),
        at(bits, pos, byte_bits(bytes)),
        0 <= i < bytes.len(),
    ensures
        read(data, pos + 8 * i, 8) == Some(bytes[i] as nat),
        byte_bits(bytes).len() == 8 * bytes.len(),
    decreases bytes.len(),
{
    let shorter = bytes.drop_last();
    let last = number_bits(bytes.last() as nat, 8);
    lemma_byte_bits_len(shorter);
    lemma_byte_bits_len(bytes);
    lemma_at_parts(bits, pos, byte_bits(shorter), last);
    lemma_small_powers();
    if i < shorter.len() {
        lemma_bytes_spelt(data, bits, pos, shorter, i);
    } else {
        lemma_number_spelt(data, bits, pos + 8 * i, bytes.last() as nat, 8);
    }
}

pub proof fn lemma_byte_bits_len(bytes: Seq<u8>)
    ensures
        byte_bits(bytes).len() == 8 * bytes.len(),
    decreases bytes.len(),
{
    if bytes.len() > 0 {
        lemma_byte_bits_len(bytes.drop_last());
    }
}

/// Whether a stream in a container of kind `kind` can be decoded as one of
/// kind `expected`.
pub open spec fn suits(expected: Kind, kind: Kind) -> bool {
    kind !is Detect && (expected == kind || (expected is Detect && kind !is Raw))
}

/// Bytes to skip are skipped.
proof fn lemma_skipped(setup: Setup, data: Seq<u8>, n: u16, p: Progress)
    requires
        p.state == State::Skip(n, 0),
        p.pos + 8 * n <= bit_len(data),
    ensures
        up_to_next(setup, data, p) == up_to_next(
            setup,
            data,
            (Progress { state: State::Block, pos: p.pos + 8 * n, ..p }),
        ),
    decreases n,
{
    lemma_at_skip(setup, p);
    lemma_next(setup, data, p);
    if n == 0 {
        let q = Progress { state: State::Fields(0), ..p };
        assert(0u16 & 2 == 0 && 0u16 & 4 == 0 && 0u16 & 8 == 0 && 0u16 & 16 == 0) by (bit_vector);
        lemma_at_fields(setup, q);
        lemma_next(setup, data, q);
    } else {
        let q = Progress { state: State::Skip((n - 1) as u16, 0), pos: p.pos + 8, ..p };
        lemma_skipped(setup, data, (n - 1) as u16, q);
    }
}

/// A header is decoded.
proof fn lemma_header_decoded(
    setup: Setup,
    data: Seq<u8>,
    bits: Seq<bool>,
    kind: Kind,
    out: Seq<u8>,
) -> (q: Progress)
    requires
        spells(data, bits),
        at(bits, 0, byte_bits(header_of(kind))),
        suits(setup.kind, kind),
    ensures
        up_to_next(setup, data, origin(out)) == up_to_next(setup, data, q),
        q.state is Block,
        q.pos == 8 * header_of(kind).len(),
        q.out == out,
        q.gzip == (kind is Gzip),
        kind !is Raw ==> q.start == out.len(),
{
    let p = origin(out);
    let header = header_of(kind);
    lemma_at_start(setup, p);
    lemma_next(setup, data, p);
    match kind {
        Kind::Gzip => {
            lemma_bytes_spelt(data, bits, 0, header, 0);
            lemma_bytes_spelt(data, bits, 0, header, 1);
            lemma_bytes_spelt(data, bits, 0, header, 2);
            lemma_bytes_spelt(data, bits, 0, header, 3);
            lemma_bytes_spelt(data, bits, 0, header, 9);
            assert(0u16 & 0xe0 == 0) by (bit_vector);
            let a = Progress { state: State::Member, pos: 8, marks: marked(p), ..p };
            let b = Progress {
                state: State::Skip(6, 0),
                pos: 32,
                gzip: true,
                start: out.len() as int,
                marks: marked(p),
                ..p
            };
            lemma_at_member(setup, a);
            lemma_next(setup, data, a);
            assert(step(setup, data, a) == Some(b));
            lemma_skipped(setup, data, 6, b);
            Progress { state: State::Block, pos: 80, ..b }
        },
        Kind::Zlib => {
            lemma_bytes_spelt(data, bits, 0, header, 0);
            lemma_bytes_spelt(data, bits, 0, header, 1);
            assert(1u16 & 0x20 == 0) by (bit_vector);
            let q = Progress {
                state: State::Block,
                pos: 16,
                gzip: false,
                start: out.len() as int,
                marks: marked(p),
                ..p
            };
            assert(step(setup, data, p) == Some(q));
            q
        },
        _ => {
            let q = Progress { state: State::Block, ..p };
            assert(step(setup, data, p) == Some(q));
            q
        },
    }
}

/// Swapping the bytes of a number makes another one.
pub proof fn lemma_swapped_bound(x: int)
    ensures
        0 <= swapped(x) <= u32::MAX,
{
}

/// The end of a deflate stream is decoded.
proof fn lemma_final_decoded(
    setup: Setup,
    data: Seq<u8>,
    bits: Seq<bool>,
    body: Seq<bool>,
    p: Progress,
) -> (q: Progress)
    requires
        spells(data, bits),
        at(bits, 0, ended_bits(body)),
        p.state is Block,
        p.pos == body.len(),
    ensures
        up_to_next(setup, data, p) == up_to_next(setup, data, q),
        q.state == (if setup.kind is Raw {
            State::Done
        } else {
            State::Checksum
        }),
        q.pos == ended_bits(body).len(),
        q.out == p.out,
        q.gzip == p.gzip,
        q.start == p.start,
{
    let pad = padding(body + final_bits());
    lemma_at_parts(bits, 0, body + final_bits(), pad);
    lemma_at_parts(bits, 0, body, final_bits());
    lemma_at_parts(bits, body.len() as int, block_bits(true), end_bits());
    assert(end_bits().len() == 7);
    lemma_block_opened(setup, data, bits, true, p);
    let a = Progress {
        state: State::Length,
        pos: p.pos + 3,
        last: true,
        len_code: fixed_len_code(),
        dist_code: fixed_dist_code(),
        ..p
    };
    lemma_block_closed(setup, data, bits, a);
    block_ended(setup, Progress { pos: a.pos + 7, ..a })
}

/// The trailer of a gzip stream is decoded.
proof fn lemma_gzip_trailer_decoded(setup: Setup, data: Seq<u8>, bits: Seq<bool>, plain: Seq<u8>, p: Progress)
    requires
        spells(data, bits),
        at(bits, p.pos, word_bits(trailer_of(Kind::Gzip, plain))),
        p.pos + 64 == bit_len(data),
        p.state is Checksum,
        p.gzip,
        p.out.skip(p.start) == plain,
    ensures
        up_to_next(setup, data, p) == (Progress { state: State::Next, pos: p.pos + 64, ..p }),
{
    let words = trailer_of(Kind::Gzip, plain);
    let one = words.drop_last();
    assert(pow2(32) == 0x1_0000_0000) by {
        lemma2_to64();
    }
    assert(word_bits(one.drop_last()) =~= Seq::<bool>::empty());
    assert(word_bits(one) =~= number_bits(words[0] as nat, 32));
    lemma_at_parts(bits, p.pos, word_bits(one), number_bits(words[1] as nat, 32));
    lemma_number_spelt(data, bits, p.pos, words[0] as nat, 32);
    lemma_number_spelt(data, bits, p.pos + 32, words[1] as nat, 32);
    let a = Progress { state: State::Size(words[0]), pos: p.pos + 32, ..p };
    let b = Progress { state: State::Next, pos: p.pos + 64, ..p };
    lemma_at_checksum(setup, p);
    lemma_next(setup, data, p);
    assert(step(setup, data, p) == Some(a));
    lemma_at_size(setup, a);
    lemma_next(setup, data, a);
    assert(step(setup, data, a) == Some(b));
    lemma_at_next(setup, b);
    lemma_next(setup, data, b);
}

/// The trailer of a zlib stream is decoded.
proof fn lemma_zlib_trailer_decoded(setup: Setup, data: Seq<u8>, bits: Seq<bool>, plain: Seq<u8>, p: Progress)
    requires
        spells(data, bits),
        at(bits, p.pos, word_bits(trailer_of(Kind::Zlib, plain))),
        p.state is Checksum,
        !p.gzip,
        p.out.skip(p.start) == plain,
    ensures
        up_to_next(setup, data, p) == (Progress { state: State::Done, pos: p.pos + 32, ..p }),
{
    let words = trailer_of(Kind::Zlib, plain);
    lemma_swapped_bound(adler32(plain));
    assert(pow2(32) == 0x1_0000_0000) by {
        lemma2_to64();
    }
    assert(word_bits(words.drop_last()) =~= Seq::<bool>::empty());
    assert(word_bits(words) =~= number_bits(words[0] as nat, 32));
    lemma_number_spelt(data, bits, p.pos, words[0] as nat, 32);
    let a = Progress { state: State::Done, pos: p.pos + 32, ..p };
    lemma_at_checksum(setup, p);
    lemma_next(setup, data, p);
    assert(step(setup, data, p) == Some(a));
    lemma_at_end(setup, a);
    lemma_next(setup, data, a);
}

/// The parts of a stream.
pub proof fn lemma_stream_parts(kind: Kind, entries: nat, chunks: Seq<Seq<u8>>)
    ensures
        ({
            let bits = stream_bits(kind, entries, chunks);
            let header = byte_bits(header_of(kind));
            let body = body_bits(kind, entries, chunks);
            &&& bits.len() % 8 == 0
            &&& bits.len() == ended_bits(body).len() + 32 * trailer_of(kind, joined(chunks)).len()
            &&& at(bits, 0, header)
            &&& header.len() == 8 * header_of(kind).len()
            &&& at(bits, header.len() as int, chunks_bits(entries, chunks))
            &&& body.len() == header.len() + chunks_bits(entries, chunks).len()
            &&& at(bits, 0, ended_bits(body))
            &&& at(bits, ended_bits(body).len() as int, word_bits(trailer_of(kind, joined(chunks))))
        }),
{
    let bits = stream_bits(kind, entries, chunks);
    let header = byte_bits(header_of(kind));
    let body = body_bits(kind, entries, chunks);
    let trailer = word_bits(trailer_of(kind, joined(chunks)));
    lemma_word_bits_len(trailer_of(kind, joined(chunks)));
    lemma_byte_bits_len(header_of(kind));
    assert(at(bits, 0, bits));
    lemma_at_parts(bits, 0, ended_bits(body), trailer);
    lemma_at_parts(bits, 0, body + final_bits(), padding(body + final_bits()));
    lemma_at_parts(bits, 0, body, final_bits());
    lemma_at_parts(bits, 0, header, chunks_bits(entries, chunks));
}

/// A stream decodes to the chunks that it was made of: all of it is taken,
/// and there is nothing else to it, whatever the size of the table,
/// whatever the chunks, and whatever was output before, as long as there is room.
pub proof fn stream_decodes(
    setup: Setup,
    kind: Kind,
    entries: nat,
    chunks: Seq<Seq<u8>>,
    out: Seq<u8>,
)
    requires
        suits(setup.kind, kind),
        roomy(setup.terms, (out.len() + joined(chunks).len()) as int),
    ensures
        ({
            let data = packed(stream_bits(kind, entries, chunks));
            let end = advance(setup, data, origin(out));
            &&& bit_len(data) == stream_bits(kind, entries, chunks).len()
            &&& end.state == (if kind is Gzip {
                State::Next
            } else {
                State::Done
            })
            &&& end.pos == bit_len(data)
            &&& end.out == out + joined(chunks)
            // There is one member.
            &&& end == up_to_next(setup, data, origin(out))
        }),
{
    let bits = stream_bits(kind, entries, chunks);
    let data = packed(bits);
    lemma_stream_parts(kind, entries, chunks);
    lemma_packed(bits);
    let p = lemma_header_decoded(setup, data, bits, kind, out);
    let q = lemma_chunks_decoded(setup, data, bits, entries, chunks, p);
    lemma_end_decoded(setup, data, bits, kind, entries, chunks, out, q);
    let end = up_to_next(setup, data, origin(out));
    lemma_beyond(setup, data, origin(out));
    if end.state is Next {
        lemma_at_next(setup, end);
        reveal(advance);
    }
}

/// The end of a stream, its trailer included, is decoded.
proof fn lemma_end_decoded(
    setup: Setup,
    data: Seq<u8>,
    bits: Seq<bool>,
    kind: Kind,
    entries: nat,
    chunks: Seq<Seq<u8>>,
    out: Seq<u8>,
    p: Progress,
)
    requires
        suits(setup.kind, kind),
        spells(data, bits),
        bit_len(data) == bits.len(),
        bits == stream_bits(kind, entries, chunks),
        p.state is Block,
        p.pos == body_bits(kind, entries, chunks).len(),
        p.out == out + joined(chunks),
        p.gzip == (kind is Gzip),
        kind !is Raw ==> p.start == out.len(),
    ensures
        ({
            let end = up_to_next(setup, data, p);
            &&& end.state == (if kind is Gzip {
                State::Next
            } else {
                State::Done
            })
            &&& end.pos == bit_len(data)
            &&& end.out == out + joined(chunks)
        }),
{
    lemma_stream_parts(kind, entries, chunks);
    let end = lemma_final_decoded(setup, data, bits, body_bits(kind, entries, chunks), p);
    assert(end.out.skip(out.len() as int) =~= joined(chunks));
    match kind {
        Kind::Gzip => {
            lemma_gzip_trailer_decoded(setup, data, bits, joined(chunks), end);
        },
        Kind::Zlib => {
            lemma_zlib_trailer_decoded(setup, data, bits, joined(chunks), end);
        },
        _ => {
            lemma_at_end(setup, end);
            lemma_next(setup, data, end);
        },
    }
}

pub proof fn lemma_word_bits_len(words: Seq<u32>)
    ensures
        word_bits(words).len() == 32 * words.len(),
    decreases words.len(),
{
    if words.len() > 0 {
        lemma_word_bits_len(words.drop_last());
    }
}

} // verus!
