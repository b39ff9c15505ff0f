//! What the compressors make of a chunk: the items that they write, and that
//! they find what is there to be found.

use vstd::arithmetic::div_mod::{lemma_mod_mod, lemma_mod_multiples_vanish};
use vstd::arithmetic::power2::{lemma2_to64, lemma_pow2_unfold, pow2};
use vstd::prelude::*;

use crate::canon::{lemma_distance_table, lemma_length_table, lemma_symbol_code, lemma_usual};
use crate::decoding::{fixed_dist_code, fixed_len_code, Kind};
use crate::encoding::{
    back, block_bits, chunk_bits, chunks_bits, clear_table, dist_symbol, distance_bits, end_bits,
    entered, halvings, length_bits, length_symbol, number_bits, packed, reach, run, slot, slot_at,
    stream_bits, table_size, token, token_bits, tokens_bits, Token,
};
use crate::roundtrip::{
    lemma_dist_symbol, lemma_length_symbol, lemma_run, lemma_stream_parts, lemma_token,
};
use crate::steps::{lemma_dist_range, lemma_length_range, lemma_small_powers};
use crate::syntax::{
    block_written, distance, item_bits, item_tells, items_bits, items_tell, items_width,
    plain_number, possible, symbol, usual_dists, usual_lits, width, writable, Block, Item,
    DISTANCE_BITS, LENGTH_BITS,
};
use crate::understood::{lemma_items_tell_more, lemma_width};

verus! {

/// Where item `k` starts in the data.
pub open spec fn start_of(items: Seq<Item>, k: int) -> int {
    items_width(items.take(k))
}

/// Whether three bytes are the same at `i` and at `j`.
pub open spec fn same_three(chunk: Seq<u8>, i: int, j: int) -> bool {
    chunk[i] == chunk[j] && chunk[i + 1] == chunk[j + 1] && chunk[i + 2] == chunk[j + 2]
}

/// Whether `len` bytes at `pos` are the same `dist` bytes back, and no more are,
/// 258 at most.
pub open spec fn longest(chunk: Seq<u8>, pos: int, dist: int, len: int) -> bool {
    &&& 0 <= len <= 258
    &&& pos + len <= chunk.len()
    &&& forall|i: int| pos <= i < pos + len ==> #[trigger] chunk[i] == chunk[i - dist]
    &&& len == 258 || pos + len == chunk.len() || chunk[pos + len] != chunk[pos + len - dist]
}

/// Whether item `j` is the last one before item `k` to start with three bytes
/// that have the same place in a table of `size` entries.
pub open spec fn last_seen(items: Seq<Item>, chunk: Seq<u8>, size: nat, j: int, k: int) -> bool {
    &&& 0 <= j < k
    &&& start_of(items, k) + 3 <= chunk.len()
    &&& slot_at(chunk, start_of(items, j), size) == slot_at(chunk, start_of(items, k), size)
    &&& forall|i: int|
        j < i < k ==> slot_at(chunk, #[trigger] start_of(items, i), size) != slot_at(
            chunk,
            start_of(items, k),
            size,
        )
}

/// Whether whatever starts like something that was seen before, no more than
/// 32768 bytes back, is a copy of it, as long as can be.
pub open spec fn thorough(items: Seq<Item>, chunk: Seq<u8>, size: nat) -> bool {
    forall|j: int, k: int|
        #![trigger last_seen(items, chunk, size, j, k)]
        k < items.len() && last_seen(items, chunk, size, j, k) ==> {
            let (from, pos) = (start_of(items, j), start_of(items, k));
            pos - from <= 32768 && same_three(chunk, from, pos) ==> {
                &&& items[k] is Copy
                &&& distance(items[k]) == pos - from
                &&& longest(chunk, pos, pos - from, width(items[k]))
            }
        }
}

/// The item that a token is.
spec fn item_of(t: Token) -> Item {
    match t {
        Token::Literal(byte) => Item::Byte(byte),
        Token::Match(len, dist) => {
            let (l, d) = ((len - 3) as nat, (dist - 1) as nat);
            let far = d % pow2(halvings(d, 4));
            if len == 258 {
                Item::Copy(28, 0, dist_symbol(dist), far)
            } else {
                Item::Copy(length_symbol(len), l % pow2(halvings(l, 8)), dist_symbol(dist), far)
            }
        },
    }
}

/// A token is written as the item that it is.
proof fn lemma_item_of(t: Token)
    requires
        t matches Token::Match(len, dist) ==> 3 <= len <= 258 && 1 <= dist <= 32768,
    ensures
        writable(usual_lits(), usual_dists(), item_of(t)),
        width(item_of(t)) == reach(t),
        t matches Token::Match(len, dist) ==> item_of(t) is Copy && distance(item_of(t)) == dist,
        item_bits(usual_lits(), usual_dists(), item_of(t)) == token_bits(t),
        token_bits(t).len() <= 31,
{
    lemma_usual();
    lemma_small_powers();
    let (lits, dists) = (fixed_len_code(), fixed_dist_code());
    match t {
        Token::Literal(byte) => {
            lemma_symbol_code(lits, byte as int);
        },
        Token::Match(len, dist) => {
            let d = (dist - 1) as nat;
            let far = d % pow2(halvings(d, 4));
            let u = dist_symbol(dist);
            lemma_dist_symbol(dist);
            lemma_distance_table(u);
            lemma_symbol_code(dists, u);
            assert(plain_number(far, DISTANCE_BITS@[u] as nat) =~= number_bits(far, halvings(d, 4)));
            let tail = symbol(dists, u) + plain_number(far, DISTANCE_BITS@[u] as nat);
            assert(tail == distance_bits(dist));
            if len == 258 {
                lemma_length_table(28);
                lemma_symbol_code(lits, 285);
                assert(plain_number(0, 0) =~= Seq::<bool>::empty());
                assert(symbol(lits, 285) + plain_number(0, 0) =~= length_bits(len));
            } else {
                let l = (len - 3) as nat;
                let s = length_symbol(len);
                let more = l % pow2(halvings(l, 8));
                lemma_length_symbol(len);
                lemma_length_table(s);
                lemma_symbol_code(lits, 257 + s);
                assert(plain_number(more, LENGTH_BITS@[s] as nat) =~= number_bits(more, halvings(l, 8)));
            }
        },
    }
}

/// A run is as long as can be.
proof fn lemma_longest(chunk: Seq<u8>, pos: int, dist: int, most: nat)
    requires
        0 <= pos <= chunk.len(),
    ensures
        ({
            let n = run(chunk, pos, dist, most);
            n == most || pos + n == chunk.len() || chunk[pos + n] != chunk[pos + n - dist]
        }),
    decreases most,
{
    if most > 0 && pos < chunk.len() && chunk[pos] == chunk[pos - dist] {
        lemma_longest(chunk, pos + 1, dist, (most - 1) as nat);
    }
}

/// Whether the table holds where items started.
spec fn up_to_date(items: Seq<Item>, table: Seq<u16>, chunk: Seq<u8>, size: nat) -> bool {
    &&& table.len() == size
    &&& forall|j: int|
        #![trigger start_of(items, j)]
        0 <= j < items.len() && start_of(items, j) + 3 <= chunk.len() && (forall|i: int|
            j < i < items.len() && start_of(items, i) + 3 <= chunk.len() ==> slot_at(
                chunk,
                #[trigger] start_of(items, i),
                size,
            ) != slot_at(chunk, start_of(items, j), size)) ==> table[slot_at(
            chunk,
            start_of(items, j),
            size,
        )] == start_of(items, j) % 0x1_0000
}

proof fn lemma_start_more(items: Seq<Item>, item: Item, k: int)
    requires
        0 <= k <= items.len(),
    ensures
        start_of(items.push(item), k) == start_of(items, k),
        start_of(items, items.len() as int) == items_width(items),
{
    assert(items.push(item).take(k) =~= items.take(k));
    assert(items.take(items.len() as int) =~= items);
}

/// Items start one after the other.
proof fn lemma_starts(items: Seq<Item>, i: int, k: int)
    requires
        0 <= i <= k <= items.len(),
        forall|j: int| 0 <= j < items.len() ==> possible(#[trigger] items[j]),
    ensures
        0 <= start_of(items, i) <= start_of(items, k),
        i < k ==> start_of(items, i) < start_of(items, k),
    decreases k,
{
    if k > 0 {
        assert(items.take(k).drop_last() =~= items.take(k - 1));
        assert(items.take(k).last() == items[k - 1]);
        lemma_width(items[k - 1]);
        if i < k {
            lemma_starts(items, i, k - 1);
        } else {
            lemma_starts(items, k - 1, k - 1);
        }
    }
}

/// What comes next is what was found, if something was.
proof fn lemma_found(items: Seq<Item>, table: Seq<u16>, chunk: Seq<u8>, size: nat, j: int)
    requires
        size > 0,
        up_to_date(items, table, chunk, size),
        forall|i: int| 0 <= i < items.len() ==> possible(#[trigger] items[i]),
        items_width(items) < chunk.len(),
        last_seen(items, chunk, size, j, items.len() as int),
        items_width(items) - start_of(items, j) <= 32768,
        same_three(chunk, start_of(items, j), items_width(items)),
    ensures
        ({
            let pos = items_width(items);
            let dist = pos - start_of(items, j);
            let t = token(table, chunk, pos, size);
            &&& t is Match
            &&& t->Match_1 == dist
            &&& longest(chunk, pos, dist, t->Match_0)
        }),
{
    let n = items.len() as int;
    let pos = items_width(items);
    assert(items.take(n) =~= items);
    assert(start_of(items, n) == pos);
    let from = start_of(items, j);
    lemma_starts(items, j, n);
    assert forall|i: int| j < i < items.len() && start_of(items, i) + 3 <= chunk.len() implies slot_at(
        chunk,
        #[trigger] start_of(items, i),
        size,
    ) != slot_at(chunk, start_of(items, j), size) by {}
    let entry = table[slot_at(chunk, pos, size)];
    assert(entry == from % 0x1_0000);
    let dist = pos - from;
    assert(back(pos, entry) == dist) by {
        assert((pos - from % 0x1_0000) % 0x1_0000 == (pos - from) % 0x1_0000);
    }
    reveal_with_fuel(run, 4);
    assert(chunk[pos] == chunk[pos - dist]);
    assert(chunk[pos + 1] == chunk[pos + 1 - dist]);
    assert(chunk[pos + 2] == chunk[pos + 2 - dist]);
    assert(run(chunk, pos + 2, dist, 256) >= 1);
    assert(run(chunk, pos + 1, dist, 257) >= 2);
    assert(run(chunk, pos, dist, 258) >= 3);
    lemma_run(chunk, pos, dist, 258);
    lemma_longest(chunk, pos, dist, 258);
}

/// A place in a table is one.
proof fn lemma_slot(chunk: Seq<u8>, pos: int, size: nat)
    requires
        size > 0,
    ensures
        0 <= slot_at(chunk, pos, size) < size,
{
}

/// The table stays up to date.
proof fn lemma_entered(items: Seq<Item>, item: Item, table: Seq<u16>, chunk: Seq<u8>, size: nat)
    requires
        size > 0,
        up_to_date(items, table, chunk, size),
    ensures
        up_to_date(items.push(item), entered(table, chunk, items_width(items), size), chunk, size),
{
    let more = items.push(item);
    let pos = items_width(items);
    let n = items.len() as int;
    let next = entered(table, chunk, pos, size);
    lemma_start_more(items, item, n);
    lemma_slot(chunk, pos, size);
    assert forall|j: int|
        #![trigger start_of(more, j)]
        0 <= j < more.len() && start_of(more, j) + 3 <= chunk.len() && (forall|i: int|
            j < i < more.len() && start_of(more, i) + 3 <= chunk.len() ==> slot_at(
                chunk,
                #[trigger] start_of(more, i),
                size,
            ) != slot_at(chunk, start_of(more, j), size)) implies next[slot_at(
        chunk,
        start_of(more, j),
        size,
    )] == start_of(more, j) % 0x1_0000 by {
        lemma_start_more(items, item, j);
        lemma_slot(chunk, start_of(items, j), size);
        if j < n {
            assert forall|i: int| j < i < items.len() && start_of(items, i) + 3 <= chunk.len() implies slot_at(
                chunk,
                #[trigger] start_of(items, i),
                size,
            ) != slot_at(chunk, start_of(items, j), size) by {
                lemma_start_more(items, item, i);
                assert(start_of(more, i) == start_of(items, i));
            }
            assert(table[slot_at(chunk, start_of(items, j), size)] == start_of(items, j) % 0x1_0000);
            assert(start_of(more, n) == pos);
        }
    }
}

/// The tokens of a chunk are items, that what is there to be found was found
/// for.
proof fn lemma_tokens(table: Seq<u16>, chunk: Seq<u8>, pos: int, size: nat, items: Seq<Item>) -> (all: Seq<Item>)
    requires
        0 <= pos <= chunk.len(),
        pos == items_width(items),
        size > 0 ==> up_to_date(items, table, chunk, size) && thorough(items, chunk, size),
        forall|i: int|
            0 <= i < items.len() ==> writable(usual_lits(), usual_dists(), #[trigger] items[i]),
        items_tell(items, Seq::empty(), chunk.take(pos)),
    ensures
        forall|i: int| 0 <= i < all.len() ==> writable(usual_lits(), usual_dists(), #[trigger] all[i]),
        items_tell(all, Seq::empty(), chunk),
        size > 0 ==> thorough(all, chunk, size),
        items_bits(usual_lits(), usual_dists(), all) == items_bits(usual_lits(), usual_dists(), items)
            + tokens_bits(table, chunk, pos, size),
    decreases chunk.len() - pos,
{
    let (lits, dists) = (usual_lits(), usual_dists());
    if pos >= chunk.len() {
        assert(chunk.take(pos) =~= chunk);
        assert(items_bits(lits, dists, items) + Seq::<bool>::empty() =~= items_bits(lits, dists, items));
        items
    } else {
        let t = token(table, chunk, pos, size);
        let item = item_of(t);
        let more = items.push(item);
        let next = pos + reach(t);
        lemma_token(table, chunk, pos, size);
        lemma_item_of(t);
        assert(more.drop_last() =~= items);
        assert(chunk.take(next).take(pos) =~= chunk.take(pos));
        assert(item_tells(item, pos, chunk.take(next)));
        if size > 0 {
            lemma_entered(items, item, table, chunk, size);
            assert forall|j: int, k: int|
                #![trigger last_seen(more, chunk, size, j, k)]
                k < more.len() && last_seen(more, chunk, size, j, k) implies {
                let (from, at) = (start_of(more, j), start_of(more, k));
                at - from <= 32768 && same_three(chunk, from, at) ==> {
                    &&& more[k] is Copy
                    &&& distance(more[k]) == at - from
                    &&& longest(chunk, at, at - from, width(more[k]))
                }
            } by {
                lemma_start_more(items, item, j);
                lemma_start_more(items, item, k);
                lemma_start_more(items, item, items.len() as int);
                assert forall|i: int| j < i < k implies slot_at(
                    chunk,
                    #[trigger] start_of(items, i),
                    size,
                ) != slot_at(chunk, start_of(items, k), size) by {
                    lemma_start_more(items, item, i);
                    assert(start_of(more, i) == start_of(items, i));
                }
                assert(last_seen(items, chunk, size, j, k));
                if k < items.len() {
                    assert(more[k] == items[k]);
                } else if start_of(items, k) - start_of(items, j) <= 32768 && same_three(
                    chunk,
                    start_of(items, j),
                    start_of(items, k),
                ) {
                    lemma_found(items, table, chunk, size, j);
                }
            }
        }
        let all = lemma_tokens(entered(table, chunk, pos, size), chunk, next, size, more);
        let rest = tokens_bits(entered(table, chunk, pos, size), chunk, next, size);
        assert(items_bits(lits, dists, more) == items_bits(lits, dists, items) + token_bits(t));
        assert(items_bits(lits, dists, items) + token_bits(t) + rest =~= items_bits(lits, dists, items)
            + (token_bits(t) + rest));
        all
    }
}

/// A chunk makes a block of items, with the usual codes, that stand for it, and
/// whatever starts with three bytes that were seen before is a copy, as long as
/// can be, of where an item last started with them: wherever this is, up to 32768
/// bytes back, and wherever in the chunk, unless other bytes have taken the place
/// of these in the table.
pub proof fn repeats_are_found(entries: nat, chunk: Seq<u8>)
    requires
        chunk.len() > 0,
    ensures
        exists|items: Seq<Item>|
            {
                &&& #[trigger] items_tell(items, Seq::empty(), chunk)
                &&& forall|i: int|
                    0 <= i < items.len() ==> writable(usual_lits(), usual_dists(), #[trigger] items[i])
                &&& entries > 0 ==> thorough(items, chunk, table_size(entries))
                &&& chunk_bits(entries, chunk) == block_written(Block::Usual(items), false)
            },
{
    let items = lemma_chunk(entries, chunk);
    assert(items_tell(items, Seq::empty(), chunk));
}

/// There is a table as soon as there is an entry.
proof fn lemma_table_size(entries: nat)
    ensures
        entries > 0 ==> table_size(entries) > 0,
    decreases entries,
{
    if entries > 1 {
        lemma_table_size(entries / 2);
    }
}

proof fn lemma_chunk(entries: nat, chunk: Seq<u8>) -> (items: Seq<Item>)
    requires
        chunk.len() > 0,
    ensures
        items_tell(items, Seq::empty(), chunk),
        forall|i: int| 0 <= i < items.len() ==> writable(usual_lits(), usual_dists(), #[trigger] items[i]),
        entries > 0 ==> thorough(items, chunk, table_size(entries)),
        chunk_bits(entries, chunk) == block_written(Block::Usual(items), false),
{
    let size = table_size(entries);
    let table = clear_table(size);
    let none = Seq::<Item>::empty();
    let (lits, dists) = (usual_lits(), usual_dists());
    lemma_table_size(entries);
    assert(chunk.take(0) =~= Seq::<u8>::empty());
    let items = lemma_tokens(table, chunk, 0, size, none);
    let tokens = tokens_bits(table, chunk, 0, size);
    assert(items_bits(lits, dists, none) + tokens =~= tokens);
    lemma_usual();
    lemma_symbol_code(lits, 256);
    assert(block_written(Block::Usual(items), false) =~= block_bits(false) + tokens + end_bits());
    items
}

/// An item takes no more than 31 bits.
proof fn lemma_item_cost(item: Item)
    requires
        writable(usual_lits(), usual_dists(), item),
    ensures
        item_bits(usual_lits(), usual_dists(), item).len() <= 31,
{
    lemma_usual();
    if let Item::Copy(s, more, t, far) = item {
        lemma_length_table(s);
        lemma_distance_table(t);
        lemma_length_range(s, more);
        lemma_dist_range(t, far);
    }
}

proof fn lemma_items_cost(items: Seq<Item>)
    requires
        forall|i: int| 0 <= i < items.len() ==> writable(usual_lits(), usual_dists(), #[trigger] items[i]),
    ensures
        items_bits(usual_lits(), usual_dists(), items).len() <= 31 * items.len(),
    decreases items.len(),
{
    if items.len() > 0 {
        let fewer = items.drop_last();
        assert forall|i: int| 0 <= i < fewer.len() implies writable(
            usual_lits(),
            usual_dists(),
            #[trigger] fewer[i],
        ) by {
            assert(fewer[i] == items[i]);
        }
        assert(items.last() == items[items.len() - 1]);
        lemma_items_cost(fewer);
        lemma_item_cost(items.last());
    }
}

/// What items stand for is as long as they are.
proof fn lemma_total(items: Seq<Item>, before: Seq<u8>, after: Seq<u8>)
    requires
        items_tell(items, before, after),
        forall|i: int| 0 <= i < items.len() ==> possible(#[trigger] items[i]),
    ensures
        after.len() == before.len() + items_width(items),
{
    lemma_items_tell_more(items, before, after);
}

/// What an item that is not the last stands for.
proof fn lemma_told(items: Seq<Item>, after: Seq<u8>, k: int)
    requires
        items_tell(items, Seq::empty(), after),
        forall|i: int| 0 <= i < items.len() ==> possible(#[trigger] items[i]),
        0 <= k < items.len(),
    ensures
        start_of(items, k) + width(items[k]) <= after.len(),
        distance(items[k]) <= start_of(items, k),
        start_of(items, k + 1) == start_of(items, k) + width(items[k]),
    decreases items.len(),
{
    let fewer = items.drop_last();
    let n = after.len() - width(items.last());
    assert(items.last() == items[items.len() - 1]);
    lemma_width(items.last());
    assert(items.take(k + 1).drop_last() =~= items.take(k));
    assert(items.take(k + 1).last() == items[k]);
    assert forall|i: int| 0 <= i < fewer.len() implies possible(#[trigger] fewer[i]) by {
        assert(fewer[i] == items[i]);
    }
    lemma_total(fewer, Seq::empty(), after.take(n));
    if k < fewer.len() {
        lemma_told(fewer, after.take(n), k);
        assert(fewer.take(k) =~= items.take(k));
        assert(fewer[k] == items[k]);
    } else {
        assert(items.take(k) =~= fewer);
    }
}

/// How many items there are to equal bytes.
proof fn lemma_equal_items(items: Seq<Item>, chunk: Seq<u8>, size: nat, k: int)
    requires
        items_tell(items, Seq::empty(), chunk),
        forall|i: int| 0 <= i < items.len() ==> possible(#[trigger] items[i]),
        thorough(items, chunk, size),
        forall|i: int, j: int| 0 <= i < chunk.len() && 0 <= j < chunk.len() ==> chunk[i] == chunk[j],
        1 <= k <= items.len(),
    ensures
        start_of(items, k) >= 1,
        start_of(items, k) + 3 <= chunk.len() ==> start_of(items, k) == 1 + 258 * (k - 1),
        k >= 2 ==> start_of(items, k) + 3 > chunk.len() ==> start_of(items, k - 1) + 3 > chunk.len()
            || start_of(items, k) == chunk.len() || start_of(items, k) == 1 + 258 * (k - 1),
    decreases k,
{
    lemma_told(items, chunk, k - 1);
    lemma_width(items[k - 1]);
    lemma_starts(items, 0, k - 1);
    if k == 1 {
        assert(items.take(0) =~= Seq::<Item>::empty());
    } else {
        lemma_equal_items(items, chunk, size, k - 1);
        let pos = start_of(items, k - 1);
        if pos + 3 <= chunk.len() {
            let from = start_of(items, k - 2);
            lemma_told(items, chunk, k - 2);
            lemma_width(items[k - 2]);
            lemma_starts(items, 0, k - 2);
            assert(last_seen(items, chunk, size, k - 2, k - 1));
            assert(same_three(chunk, from, pos));
            assert(longest(chunk, pos, pos - from, width(items[k - 1])));
            let len = width(items[k - 1]);
            if len < 258 && pos + len < chunk.len() {
                assert(chunk[pos + len] == chunk[pos + len - (pos - from)]);
            }
        }
    }
}

/// Equal bytes, however many, are compressed to next to nothing: 31 bits for
/// every 258 of them, and a little more.
pub proof fn equal_bytes_shrink(entries: nat, chunk: Seq<u8>)
    requires
        entries > 0,
        chunk.len() > 0,
        forall|i: int, j: int| 0 <= i < chunk.len() && 0 <= j < chunk.len() ==> chunk[i] == chunk[j],
    ensures
        chunk_bits(entries, chunk).len() <= 31 * (chunk.len() / 258 + 4) + 10,
{
    let items = lemma_chunk(entries, chunk);
    let size = table_size(entries);
    assert forall|i: int| 0 <= i < items.len() implies possible(#[trigger] items[i]) by {}
    lemma_items_cost(items);
    lemma_usual();
    lemma_symbol_code(usual_lits(), 256);
    lemma_total(items, Seq::empty(), chunk);
    let n = items.len() as int;
    // All but the last four items end before the last three bytes.
    if n >= 5 {
        let k = n - 3;
        lemma_told(items, chunk, n - 1);
        lemma_told(items, chunk, n - 2);
        lemma_told(items, chunk, n - 3);
        lemma_width(items[n - 1]);
        lemma_width(items[n - 2]);
        lemma_width(items[n - 3]);
        assert(start_of(items, k) + 3 <= chunk.len());
        lemma_equal_items(items, chunk, size, k);
        assert(258 * (k - 1) < chunk.len());
    }
}

/// As much of a table is used as makes a power of two.
pub proof fn tables_are_used(entries: nat) -> (k: nat)
    requires
        entries > 0,
    ensures
        table_size(entries) == pow2(k),
        pow2(k) <= entries < pow2(k + 1),
    decreases entries,
{
    lemma2_to64();
    if entries > 1 {
        let k = tables_are_used(entries / 2);
        lemma_pow2_unfold(k + 1);
        lemma_pow2_unfold(k + 2);
        k + 1
    } else {
        0
    }
}

/// Multiplying by the factor can be undone.
proof fn lemma_undone(v: int, x: int)
    requires
        0 <= v < 0x1_0000_0000,
        x == v * 0x9e37_79b1,
    ensures
        ((x % 0x1_0000_0000) * 0x0e8b_2f51) % 0x1_0000_0000 == v,
{
    let (m, k, c) = (0x1_0000_0000int, 0x0e8b_2f51int, 0x08fd_0e05int);
    let q = x / m;
    let r = x % m;
    assert(0x9e37_79b1 * k == c * m + 1);
    assert(r * k == v + m * (v * c - q * k)) by (nonlinear_arith)
        requires
            x == v * 0x9e37_79b1,
            r == x - q * m,
            0x9e37_79b1 * k == c * m + 1,
    ;
    lemma_mod_multiples_vanish(v * c - q * k, v, m);
    assert(m * (v * c - q * k) + v == r * k);
}

/// Three bytes that are not the same have places that are not the same in a table
/// that is large enough, and their place in one is that in one twice as large,
/// modulo the number of entries.
pub proof fn places_differ(a: u8, b: u8, c: u8, d: u8, e: u8, f: u8, size: nat)
    requires
        size > 0,
    ensures
        slot(a, b, c, 0x1_0000_0000) == slot(d, e, f, 0x1_0000_0000) ==> a == d && b == e && c == f,
        slot(a, b, c, size) == slot(a, b, c, 2 * size) % size as int,
{
    let (v, w) = ((a + 0x100 * b + 0x1_0000 * c) as u64, (d + 0x100 * e + 0x1_0000 * f) as u64);
    let x = ((v * 0x9e37_79b1) % 0x1_0000_0000) as u64;
    let y = ((w * 0x9e37_79b1) % 0x1_0000_0000) as u64;
    assert((x ^ (x >> 15)) < 0x1_0000_0000 && (x ^ (x >> 15) == y ^ (y >> 15) ==> x == y)) by (bit_vector)
        requires
            x < 0x1_0000_0000,
            y < 0x1_0000_0000,
    ;
    assert((y ^ (y >> 15)) < 0x1_0000_0000) by (bit_vector)
        requires
            y < 0x1_0000_0000,
    ;
    lemma_undone(v as int, v as int * 0x9e37_79b1);
    lemma_undone(w as int, w as int * 0x9e37_79b1);
    let t = (x ^ (x >> 15)) as int;
    assert(2 * size == size * 2);
    lemma_mod_mod(t, size as int, 2);
}

/// A stream is what its chunks make, an empty last block of ten bits, and its
/// frame: eighteen bytes for gzip, six for zlib.
pub proof fn streams_are_short(kind: Kind, entries: nat, chunks: Seq<Seq<u8>>)
    requires
        kind !is Detect,
    ensures
        packed(stream_bits(kind, entries, chunks)).len() == (chunks_bits(entries, chunks).len() + 10 + 7) / 8
            + match kind {
            Kind::Gzip => 18int,
            Kind::Zlib => 6int,
            _ => 0int,
        },
{
    lemma_stream_parts(kind, entries, chunks);
    assert(end_bits().len() == 7);
}

} // verus!
