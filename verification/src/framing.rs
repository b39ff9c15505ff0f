//! The containers, as they are written and as they are decoded.

use vstd::arithmetic::power2::{lemma2_to64, lemma_pow2_adds, pow2};
use vstd::prelude::*;

use crate::bits::{lemma_number_bound, lemma_number_byte, lemma_number_split, number};
use crate::decoding::{
    lemma_at_fields, lemma_at_member, lemma_at_skip, lemma_at_start, marked, origin, read, step,
    swapped, text_done, zlib_fault, Progress, Setup, State, FCOMMENT, FEXTRA, FHCRC, FNAME,
    RESERVED,
};
use crate::explained::{lemma_goes_on, settled};
use crate::roundtrip::lemma_next;
use crate::single::up_to_next;
use crate::steps::lemma_small_powers;
use crate::syntax::{
    extra_bytes, flags_of, header_bytes, header_possible, high_first, low_first, sum_bytes,
    text_bytes, textual, zlib_header_possible, Header,
};

verus! {

/// A byte is read as it is.
pub proof fn lemma_byte_read(data: Seq<u8>, k: int)
    requires
        0 <= k,
    ensures
        k < data.len() ==> read(data, 8 * k, 8) == Some(data[k] as nat),
        k >= data.len() ==> read(data, 8 * k, 8) is None,
{
    if k < data.len() {
        lemma_number_byte(data, k);
    }
}

/// A number of several bytes, one byte at a time.
proof fn lemma_number_bytes(data: Seq<u8>, k: int, n: nat)
    requires
        0 <= k < data.len(),
        n > 0,
    ensures
        number(data, 8 * k, 8 * n) == data[k] + 256 * number(data, 8 * (k + 1), (8 * (n - 1)) as nat),
{
    lemma_small_powers();
    lemma_number_split(data, 8 * k, 8, (8 * (n - 1)) as nat);
    lemma_number_byte(data, k);
    assert(8 + (8 * (n - 1)) as nat == 8 * n);
}

/// A number is read as it was written, and the other way round.
pub proof fn lemma_low_first(data: Seq<u8>, k: int, n: nat)
    requires
        0 <= k,
        k + n <= data.len(),
    ensures
        low_first(number(data, 8 * k, 8 * n) as int, n) == data.subrange(k, k + n),
        forall|v: int|
            #![trigger low_first(v, n)]
            0 <= v < pow2(8 * n) && data.subrange(k, k + n) == low_first(v, n) ==> number(
                data,
                8 * k,
                8 * n,
            ) == v,
    decreases n,
{
    let all = data.subrange(k, k + n);
    lemma_small_powers();
    if n == 0 {
        assert(all =~= Seq::<u8>::empty());
    } else {
        let m = (n - 1) as nat;
        let rest = data.subrange(k + 1, k + 1 + m);
        lemma_number_bytes(data, k, n);
        lemma_low_first(data, k + 1, m);
        let v = number(data, 8 * k, 8 * n) as int;
        assert(v % 256 == data[k] && v / 256 == number(data, 8 * (k + 1), 8 * m));
        assert(all =~= seq![data[k]] + rest);
        assert forall|v: int|
            #![trigger low_first(v, n)]
            0 <= v < pow2(8 * n) && all == low_first(v, n) implies number(data, 8 * k, 8 * n) == v by {
            let more = low_first(v / 256, m);
            assert(low_first(v, n) == seq![(v % 256) as u8] + more);
            assert(all[0] == (v % 256) as u8);
            lemma_low_first_len(v / 256, m);
            assert(rest =~= more) by {
                assert(all.skip(1) =~= rest);
                assert((seq![(v % 256) as u8] + more).skip(1) =~= more);
            }
            lemma_pow2_adds(8, 8 * m);
            assert(v / 256 < pow2(8 * m)) by (nonlinear_arith)
                requires
                    0 <= v < 256 * pow2(8 * m),
            ;
        }
    }
}

pub proof fn lemma_low_first_len(v: int, n: nat)
    ensures
        low_first(v, n).len() == n,
    decreases n,
{
    if n > 0 {
        lemma_low_first_len(v / 256, (n - 1) as nat);
    }
}

/// Swapping the bytes of a word is writing it the other way round.
pub proof fn lemma_swapped_bytes(x: int)
    requires
        0 <= x < 0x1_0000_0000,
    ensures
        low_first(swapped(x), 4) == high_first(x, 4),
{
    let y = swapped(x);
    let (b0, b1, b2, b3) = (x % 256, x / 0x100 % 256, x / 0x1_0000 % 256, x / 0x100_0000 % 256);
    assert(y == b0 * 0x100_0000 + b1 * 0x1_0000 + b2 * 0x100 + b3);
    assert(y % 256 == b3);
    assert(y / 256 == b0 * 0x1_0000 + b1 * 0x100 + b2);
    assert(y / 256 % 256 == b2);
    assert(y / 256 / 256 == b0 * 0x100 + b1);
    assert(y / 256 / 256 % 256 == b1);
    assert(y / 256 / 256 / 256 == b0);
    assert(x / 256 / 256 == x / 0x1_0000);
    assert(x / 256 / 256 / 256 == x / 0x100_0000);
    reveal_with_fuel(low_first, 5);
    reveal_with_fuel(high_first, 5);
    assert(low_first(y, 4) =~= seq![b3 as u8, b2 as u8, b1 as u8, b0 as u8]);
    assert(high_first(x, 4) =~= seq![b3 as u8, b2 as u8, b1 as u8, b0 as u8]);
}

/// Bytes to skip are skipped.
proof fn lemma_skips(setup: Setup, data: Seq<u8>, n: u16, flags: u16, k: int, p: Progress)
    requires
        p.state == State::Skip(n, flags),
        p.pos == 8 * k,
        0 <= k,
        k + n <= data.len(),
    ensures
        up_to_next(setup, data, p) == up_to_next(
            setup,
            data,
            (Progress { state: State::Fields(flags), pos: 8 * (k + n), ..p }),
        ),
    decreases n,
{
    lemma_at_skip(setup, p);
    lemma_next(setup, data, p);
    if n > 0 {
        lemma_byte_read(data, k);
        let q = Progress { state: State::Skip((n - 1) as u16, flags), pos: 8 * (k + 1), ..p };
        lemma_skips(setup, data, (n - 1) as u16, flags, k + 1, q);
    }
}

/// What gets to the end has the bytes to skip.
proof fn explain_skips(setup: Setup, data: Seq<u8>, n: u16, flags: u16, k: int, p: Progress)
    requires
        p.state == State::Skip(n, flags),
        p.pos == 8 * k,
        0 <= k <= data.len(),
        settled(up_to_next(setup, data, p)),
    ensures
        k + n <= data.len(),
        up_to_next(setup, data, p) == up_to_next(
            setup,
            data,
            (Progress { state: State::Fields(flags), pos: 8 * (k + n), ..p }),
        ),
    decreases n,
{
    let q = lemma_goes_on(setup, data, p);
    lemma_at_skip(setup, p);
    if n > 0 {
        lemma_byte_read(data, k);
        explain_skips(setup, data, (n - 1) as u16, flags, k + 1, q);
    }
}

/// Text is skipped.
proof fn lemma_text(setup: Setup, data: Seq<u8>, flags: u16, text: Seq<u8>, k: int, i: int, p: Progress)
    requires
        p.state == State::Fields(flags),
        flags & FEXTRA == 0,
        flags & FNAME != 0 || flags & FCOMMENT != 0,
        0 <= k,
        0 <= i <= text.len(),
        p.pos == 8 * (k + i),
        k + text.len() + 1 <= data.len(),
        forall|j: int| 0 <= j < text.len() ==> #[trigger] text[j] != 0,
        data.subrange(k, k + text.len() + 1) == text.push(0),
    ensures
        up_to_next(setup, data, p) == up_to_next(
            setup,
            data,
            (Progress { state: State::Fields(text_done(flags)), pos: 8 * (k + text.len() + 1), ..p }),
        ),
    decreases text.len() - i,
{
    lemma_at_fields(setup, p);
    lemma_next(setup, data, p);
    lemma_byte_read(data, k + i);
    assert(data[k + i] == data.subrange(k, k + text.len() + 1)[i]);
    if i < text.len() {
        assert(text.push(0)[i] == text[i]);
        lemma_text(setup, data, flags, text, k, i + 1, Progress { pos: 8 * (k + i + 1), ..p });
    }
}

/// What gets to the end has the text to skip.
proof fn explain_text(setup: Setup, data: Seq<u8>, flags: u16, k: int, i: int, p: Progress) -> (n: int)
    requires
        p.state == State::Fields(flags),
        flags & FEXTRA == 0,
        flags & FNAME != 0 || flags & FCOMMENT != 0,
        0 <= k,
        0 <= i,
        k + i <= data.len(),
        p.pos == 8 * (k + i),
        forall|j: int| k <= j < k + i ==> #[trigger] data[j] != 0,
        settled(up_to_next(setup, data, p)),
    ensures
        0 <= n,
        k + n + 1 <= data.len(),
        forall|j: int| k <= j < k + n ==> #[trigger] data[j] != 0,
        data[k + n] == 0,
        up_to_next(setup, data, p) == up_to_next(
            setup,
            data,
            (Progress { state: State::Fields(text_done(flags)), pos: 8 * (k + n + 1), ..p }),
        ),
    decreases data.len() - k - i,
{
    let q = lemma_goes_on(setup, data, p);
    lemma_at_fields(setup, p);
    lemma_byte_read(data, k + i);
    if data[k + i] == 0 {
        i
    } else {
        explain_text(setup, data, flags, k, i + 1, q)
    }
}

/// How the flags of a header are told apart.
proof fn lemma_flags(g: u16)
    ensures
        (g & !FEXTRA) & FEXTRA == 0,
        (g & !FEXTRA) & FNAME == g & FNAME,
        (g & !FEXTRA) & FCOMMENT == g & FCOMMENT,
        (g & !FEXTRA) & FHCRC == g & FHCRC,
        (g & !FNAME) & FEXTRA == g & FEXTRA,
        (g & !FNAME) & FNAME == 0,
        (g & !FNAME) & FCOMMENT == g & FCOMMENT,
        (g & !FNAME) & FHCRC == g & FHCRC,
        (g & !FCOMMENT) & FEXTRA == g & FEXTRA,
        (g & !FCOMMENT) & FNAME == g & FNAME,
        (g & !FCOMMENT) & FCOMMENT == 0,
        (g & !FCOMMENT) & FHCRC == g & FHCRC,
        (g & !FHCRC) & FEXTRA == g & FEXTRA,
        (g & !FHCRC) & FNAME == g & FNAME,
        (g & !FHCRC) & FCOMMENT == g & FCOMMENT,
        (g & !FHCRC) & FHCRC == 0,
{
    assert((g & !4u16) & 4 == 0 && (g & !4u16) & 8 == g & 8 && (g & !4u16) & 16 == g & 16 && (g & !4u16)
        & 2 == g & 2) by (bit_vector);
    assert((g & !8u16) & 4 == g & 4 && (g & !8u16) & 8 == 0 && (g & !8u16) & 16 == g & 16 && (g & !8u16)
        & 2 == g & 2) by (bit_vector);
    assert((g & !16u16) & 4 == g & 4 && (g & !16u16) & 8 == g & 8 && (g & !16u16) & 16 == 0 && (g
        & !16u16) & 2 == g & 2) by (bit_vector);
    assert((g & !2u16) & 4 == g & 4 && (g & !2u16) & 8 == g & 8 && (g & !2u16) & 16 == g & 16 && (g
        & !2u16) & 2 == 0) by (bit_vector);
}

/// The flags of a header are what they were made of.
proof fn lemma_flags_made(t: u16, s: u16, e: u16, n: u16, c: u16, g: u16)
    requires
        t <= 1,
        s <= 1,
        e <= 1,
        n <= 1,
        c <= 1,
        g == t + 2 * s + 4 * e + 8 * n + 16 * c,
    ensures
        g & RESERVED == 0,
        (g & FHCRC != 0) == (s == 1),
        (g & FEXTRA != 0) == (e == 1),
        (g & FNAME != 0) == (n == 1),
        (g & FCOMMENT != 0) == (c == 1),
{
    assert(g & 0xe0 == 0 && (g & 2 != 0) == (s == 1) && (g & 4 != 0) == (e == 1) && (g & 8 != 0) == (n
        == 1) && (g & 16 != 0) == (c == 1)) by (bit_vector)
        requires
            t <= 1,
            s <= 1,
            e <= 1,
            n <= 1,
            c <= 1,
            g == t + 2 * s + 4 * e + 8 * n + 16 * c,
    ;
}

proof fn lemma_flags_told(g: u16)
    requires
        g < 256,
        g & RESERVED == 0,
    ensures
        g == (if g & 1 != 0 {
            1int
        } else {
            0
        }) + (if g & FHCRC != 0 {
            2int
        } else {
            0
        }) + (if g & FEXTRA != 0 {
            4int
        } else {
            0
        }) + (if g & FNAME != 0 {
            8int
        } else {
            0
        }) + (if g & FCOMMENT != 0 {
            16int
        } else {
            0
        }),
{
    assert(g == (g & 1) + (g & 2) + (g & 4) + (g & 8) + (g & 16)) by (bit_vector)
        requires
            g < 256,
            g & 0xe0 == 0,
    ;
    assert((g & 1 == 0 || g & 1 == 1) && (g & 2 == 0 || g & 2 == 2) && (g & 4 == 0 || g & 4 == 4) && (g
        & 8 == 0 || g & 8 == 8) && (g & 16 == 0 || g & 16 == 16)) by (bit_vector);
}

/// The optional fields of a header are skipped.
proof fn lemma_fields(setup: Setup, data: Seq<u8>, header: Header, flags: u16, k: int, p: Progress)
    requires
        p.state == State::Fields(flags),
        p.pos == 8 * k,
        0 <= k,
        header_possible(header),
        (flags & FHCRC != 0) == (header.sum is Some),
        (flags & FEXTRA != 0) == (header.extra is Some),
        (flags & FNAME != 0) == (header.name is Some),
        (flags & FCOMMENT != 0) == (header.comment is Some),
        ({
            let fields = extra_bytes(header.extra) + text_bytes(header.name) + text_bytes(header.comment)
                + sum_bytes(header.sum);
            k + fields.len() <= data.len() && data.subrange(k, k + fields.len()) == fields
        }),
    ensures
        ({
            let fields = extra_bytes(header.extra) + text_bytes(header.name) + text_bytes(header.comment)
                + sum_bytes(header.sum);
            up_to_next(setup, data, p) == up_to_next(
                setup,
                data,
                (Progress { state: State::Block, pos: 8 * (k + fields.len()), ..p }),
            )
        }),
{
    let (x, n, c, s) = (
        extra_bytes(header.extra),
        text_bytes(header.name),
        text_bytes(header.comment),
        sum_bytes(header.sum),
    );
    let fields = x + n + c + s;
    let got = data.subrange(k, k + fields.len());
    let (k1, k2, k3, k4) = (
        k + x.len(),
        k + x.len() + n.len(),
        k + x.len() + n.len() + c.len(),
        k + fields.len(),
    );
    assert(data.subrange(k, k1) =~= x) by {
        assert(got.subrange(0, x.len() as int) =~= x);
        assert(data.subrange(k, k1) =~= got.subrange(0, x.len() as int));
    }
    assert(data.subrange(k1, k2) =~= n) by {
        assert(got.subrange(k1 - k, k2 - k) =~= n);
        assert(data.subrange(k1, k2) =~= got.subrange(k1 - k, k2 - k));
    }
    assert(data.subrange(k2, k3) =~= c) by {
        assert(got.subrange(k2 - k, k3 - k) =~= c);
        assert(data.subrange(k2, k3) =~= got.subrange(k2 - k, k3 - k));
    }
    lemma_flags(flags);
    let f1 = if header.extra is Some {
        flags & !FEXTRA
    } else {
        flags
    };
    let p1 = Progress { state: State::Fields(f1), pos: 8 * k1, ..p };
    if let Some(extra) = header.extra {
        lemma_at_fields(setup, p);
        lemma_next(setup, data, p);
        lemma_low_first_len(extra.len() as int, 2);
        lemma_low_first(data, k, 2);
        assert(data.subrange(k, k + 2) =~= low_first(extra.len() as int, 2)) by {
            assert(data.subrange(k, k1).subrange(0, 2) =~= data.subrange(k, k + 2));
            assert(x.subrange(0, 2) =~= low_first(extra.len() as int, 2));
        }
        assert(pow2(16) == 0x1_0000) by {
            lemma2_to64();
        }
        let a = Progress { state: State::Skip(extra.len() as u16, f1), pos: 8 * (k + 2), ..p };
        lemma_skips(setup, data, extra.len() as u16, f1, k + 2, a);
    }
    lemma_flags(f1);
    let f2 = if header.name is Some {
        f1 & !FNAME
    } else {
        f1
    };
    let p2 = Progress { state: State::Fields(f2), pos: 8 * k2, ..p };
    if let Some(name) = header.name {
        lemma_text(setup, data, f1, name, k1, 0, p1);
    }
    lemma_flags(f2);
    let f3 = if header.comment is Some {
        f2 & !FCOMMENT
    } else {
        f2
    };
    let p3 = Progress { state: State::Fields(f3), pos: 8 * k3, ..p };
    if let Some(comment) = header.comment {
        lemma_text(setup, data, f2, comment, k2, 0, p2);
    }
    lemma_flags(f3);
    let f4 = if header.sum is Some {
        f3 & !FHCRC
    } else {
        f3
    };
    let p4 = Progress { state: State::Fields(f4), pos: 8 * k4, ..p };
    if header.sum is Some {
        lemma_at_fields(setup, p3);
        lemma_next(setup, data, p3);
        lemma_skips(setup, data, 2, f4, k3, Progress { state: State::Skip(2, f4), ..p3 });
    }
    assert(up_to_next(setup, data, p) == up_to_next(setup, data, p4));
    lemma_at_fields(setup, p4);
    lemma_next(setup, data, p4);
}

/// Where a header leads.
pub open spec fn past_header(p: Progress, k: int, q: Progress) -> bool {
    &&& q.state is Block
    &&& q.pos == 8 * k
    &&& q.gzip
    &&& q.start == p.out.len()
    &&& q.out == p.out
}

/// A gzip header is decoded.
pub proof fn lemma_gzip_header(setup: Setup, data: Seq<u8>, header: Header, out: Seq<u8>) -> (q: Progress)
    requires
        setup.kind is Gzip || setup.kind is Detect,
        header_possible(header),
        header_bytes(header).is_prefix_of(data),
    ensures
        up_to_next(setup, data, origin(out)) == up_to_next(setup, data, q),
        past_header(origin(out), header_bytes(header).len() as int, q),
{
    let p = origin(out);
    let all = header_bytes(header);
    let f = flags_of(header);
    let head = seq![0x1f, 0x8b, 8, f as u8];
    let (x, n, c, s) = (
        extra_bytes(header.extra),
        text_bytes(header.name),
        text_bytes(header.comment),
        sum_bytes(header.sum),
    );
    let fields = x + n + c + s;
    assert(all =~= head + header.facts + fields);
    assert(all[0] == 0x1f && all[1] == 0x8b && all[2] == 8 && all[3] == f);
    assert(data[0] == all[0] && data[1] == all[1] && data[2] == all[2] && data[3] == all[3]);
    assert(data.subrange(10, 10int + fields.len()) =~= fields) by {
        assert(all.subrange(10, 10int + fields.len()) =~= fields);
        assert(data.subrange(0, all.len() as int) =~= all);
        assert(data.subrange(10, 10int + fields.len()) =~= data.subrange(0, all.len() as int).subrange(
            10,
            10int + fields.len(),
        ));
    }
    let one = |b: bool|
        if b {
            1u16
        } else {
            0u16
        };
    let flags = f as u16;
    lemma_flags_made(
        one(header.text),
        one(header.sum is Some),
        one(header.extra is Some),
        one(header.name is Some),
        one(header.comment is Some),
        flags,
    );
    lemma_byte_read(data, 0);
    lemma_byte_read(data, 1);
    lemma_byte_read(data, 2);
    lemma_byte_read(data, 3);
    lemma_at_start(setup, p);
    lemma_next(setup, data, p);
    let a = Progress { state: State::Member, pos: 8, marks: marked(p), ..p };
    lemma_at_member(setup, a);
    lemma_next(setup, data, a);
    let b = Progress {
        state: State::Skip(6, flags),
        pos: 32,
        gzip: true,
        start: out.len() as int,
        marks: marked(p),
        ..p
    };
    assert(up_to_next(setup, data, p) == up_to_next(setup, data, a));
    assert(step(setup, data, a) == Some(b));
    lemma_skips(setup, data, 6, flags, 4, b);
    let c = Progress { state: State::Fields(flags), pos: 80, ..b };
    lemma_fields(setup, data, header, flags, 10, c);
    Progress { state: State::Block, pos: 8 * (10int + fields.len()), ..c }
}

/// The flags once a field is done with, if there is one.
spec fn without(flags: u16, bit: u16) -> u16 {
    if flags & bit != 0 {
        flags & !bit
    } else {
        flags
    }
}

/// What gets to the end has the extra field that its flags tell of.
proof fn explain_extra(setup: Setup, data: Seq<u8>, flags: u16, k: int, p: Progress) -> (r: Option<Seq<u8>>)
    requires
        p.state == State::Fields(flags),
        p.pos == 8 * k,
        0 <= k <= data.len(),
        settled(up_to_next(setup, data, p)),
    ensures
        (flags & FEXTRA != 0) == (r is Some),
        r matches Some(extra) ==> extra.len() < 0x1_0000,
        k + extra_bytes(r).len() <= data.len(),
        data.subrange(k, k + extra_bytes(r).len()) == extra_bytes(r),
        up_to_next(setup, data, p) == up_to_next(
            setup,
            data,
            (Progress {
                state: State::Fields(without(flags, FEXTRA)),
                pos: 8 * (k + extra_bytes(r).len()),
                ..p
            }),
        ),
{
    if flags & FEXTRA != 0 {
        lemma_at_fields(setup, p);
        let a = lemma_goes_on(setup, data, p);
        let len = read(data, 8 * k, 16)->0;
        lemma_number_bound(data, 8 * k, 16);
        assert(pow2(16) == 0x1_0000) by {
            lemma2_to64();
        }
        explain_skips(setup, data, len as u16, flags & !FEXTRA, k + 2, a);
        lemma_low_first(data, k, 2);
        let extra = data.subrange(k + 2, k + 2 + len);
        assert(data.subrange(k, k + 2 + len) =~= data.subrange(k, k + 2) + extra);
        Some(extra)
    } else {
        assert(data.subrange(k, k) =~= Seq::<u8>::empty());
        None
    }
}

/// What gets to the end has the text that its flags tell of.
proof fn explain_texts(setup: Setup, data: Seq<u8>, flags: u16, bit: u16, k: int, p: Progress) -> (r: Option<Seq<u8>>)
    requires
        p.state == State::Fields(flags),
        bit == FNAME || (bit == FCOMMENT && flags & FNAME == 0),
        flags & FEXTRA == 0,
        p.pos == 8 * k,
        0 <= k <= data.len(),
        settled(up_to_next(setup, data, p)),
    ensures
        (flags & bit != 0) == (r is Some),
        textual(r),
        k + text_bytes(r).len() <= data.len(),
        data.subrange(k, k + text_bytes(r).len()) == text_bytes(r),
        up_to_next(setup, data, p) == up_to_next(
            setup,
            data,
            (Progress {
                state: State::Fields(without(flags, bit)),
                pos: 8 * (k + text_bytes(r).len()),
                ..p
            }),
        ),
{
    if flags & bit != 0 {
        let n = explain_text(setup, data, flags, k, 0, p);
        let text = data.subrange(k, k + n);
        assert(data.subrange(k, k + n + 1) =~= text.push(0));
        Some(text)
    } else {
        assert(data.subrange(k, k) =~= Seq::<u8>::empty());
        None
    }
}

/// What gets to the end has the checksum that its flags tell of, and then data.
proof fn explain_sum(setup: Setup, data: Seq<u8>, flags: u16, k: int, p: Progress) -> (r: Option<Seq<u8>>)
    requires
        p.state == State::Fields(flags),
        flags & FEXTRA == 0,
        flags & FNAME == 0,
        flags & FCOMMENT == 0,
        p.pos == 8 * k,
        0 <= k <= data.len(),
        settled(up_to_next(setup, data, p)),
    ensures
        (flags & FHCRC != 0) == (r is Some),
        r matches Some(sum) ==> sum.len() == 2,
        k + sum_bytes(r).len() <= data.len(),
        data.subrange(k, k + sum_bytes(r).len()) == sum_bytes(r),
        up_to_next(setup, data, p) == up_to_next(
            setup,
            data,
            (Progress { state: State::Block, pos: 8 * (k + sum_bytes(r).len()), ..p }),
        ),
{
    lemma_at_fields(setup, p);
    let a = lemma_goes_on(setup, data, p);
    if flags & FHCRC != 0 {
        lemma_flags(flags);
        let f = flags & !FHCRC;
        explain_skips(setup, data, 2, f, k, a);
        let q = Progress { state: State::Fields(f), pos: 8 * (k + 2), ..p };
        lemma_at_fields(setup, q);
        let b = lemma_goes_on(setup, data, q);
        Some(data.subrange(k, k + 2))
    } else {
        assert(data.subrange(k, k) =~= Seq::<u8>::empty());
        None
    }
}

/// What gets to the end has the fields that its flags tell of.
#[verifier::spinoff_prover]
#[verifier::rlimit(40)]
proof fn explain_fields(setup: Setup, data: Seq<u8>, flags: u16, k: int, p: Progress) -> (r: (Header, Progress))
    requires
        p.state == State::Fields(flags),
        p.pos == 8 * k,
        4 <= k - 6,
        k <= data.len(),
        settled(up_to_next(setup, data, p)),
    ensures
        ({
            let (header, q) = r;
            let fields = extra_bytes(header.extra) + text_bytes(header.name) + text_bytes(header.comment)
                + sum_bytes(header.sum);
            &&& header_possible(header)
            &&& header.text == (flags & 1 != 0)
            &&& header.facts == data.subrange(4, 10)
            &&& (flags & FHCRC != 0) == (header.sum is Some)
            &&& (flags & FEXTRA != 0) == (header.extra is Some)
            &&& (flags & FNAME != 0) == (header.name is Some)
            &&& (flags & FCOMMENT != 0) == (header.comment is Some)
            &&& k + fields.len() <= data.len()
            &&& data.subrange(k, k + fields.len()) == fields
            &&& q == (Progress { state: State::Block, pos: 8 * (k + fields.len()), ..p })
            &&& up_to_next(setup, data, p) == up_to_next(setup, data, q)
        }),
{
    lemma_flags(flags);
    let extra = explain_extra(setup, data, flags, k, p);
    let k1 = k + extra_bytes(extra).len();
    let f1 = without(flags, FEXTRA);
    let p1 = Progress { state: State::Fields(f1), pos: 8 * k1, ..p };
    lemma_flags(f1);
    let name = explain_texts(setup, data, f1, FNAME, k1, p1);
    let k2 = k1 + text_bytes(name).len();
    let f2 = without(f1, FNAME);
    let p2 = Progress { state: State::Fields(f2), pos: 8 * k2, ..p };
    lemma_flags(f2);
    let comment = explain_texts(setup, data, f2, FCOMMENT, k2, p2);
    let k3 = k2 + text_bytes(comment).len();
    let f3 = without(f2, FCOMMENT);
    let p3 = Progress { state: State::Fields(f3), pos: 8 * k3, ..p };
    let sum = explain_sum(setup, data, f3, k3, p3);
    let k4 = k3 + sum_bytes(sum).len();
    let header = Header {
        text: flags & 1 != 0,
        facts: data.subrange(4, 10),
        extra,
        name,
        comment,
        sum,
    };
    assert(data.subrange(k, k4) =~= data.subrange(k, k1) + data.subrange(k1, k2) + data.subrange(k2, k3)
        + data.subrange(k3, k4));
    (header, Progress { state: State::Block, pos: 8 * k4, ..p })
}

/// What gets to the end has a header, if it is gzip.
pub proof fn explain_gzip_header(setup: Setup, data: Seq<u8>, out: Seq<u8>) -> (r: (Header, Progress))
    requires
        setup.kind is Gzip,
        settled(up_to_next(setup, data, origin(out))),
    ensures
        ({
            let (header, q) = r;
            &&& header_possible(header)
            &&& header_bytes(header).is_prefix_of(data)
            &&& past_header(origin(out), header_bytes(header).len() as int, q)
            &&& up_to_next(setup, data, origin(out)) == up_to_next(setup, data, q)
        }),
{
    let p = origin(out);
    let a = lemma_goes_on(setup, data, p);
    lemma_byte_read(data, 0);
    lemma_byte_read(data, 1);
    lemma_byte_read(data, 2);
    lemma_byte_read(data, 3);
    lemma_at_start(setup, p);
    let b = lemma_goes_on(setup, data, a);
    lemma_at_member(setup, a);
    let flags = data[3] as u16;
    explain_skips(setup, data, 6, flags, 4, b);
    let c = Progress { state: State::Fields(flags), pos: 80, ..b };
    let (header, q) = explain_fields(setup, data, flags, 10, c);
    lemma_flags_told(flags);
    let (x, n, t, s) = (
        extra_bytes(header.extra),
        text_bytes(header.name),
        text_bytes(header.comment),
        sum_bytes(header.sum),
    );
    let fields = x + n + t + s;
    let head = seq![0x1f, 0x8b, 8, flags_of(header) as u8];
    assert(header_bytes(header) =~= head + header.facts + fields);
    assert(data.subrange(0, 4) =~= head);
    assert(data.subrange(0, 10int + fields.len()) =~= data.subrange(0, 4) + data.subrange(4, 10)
        + data.subrange(10, 10int + fields.len()));
    (header, q)
}

/// Which two bytes make a zlib header.
pub proof fn lemma_zlib_bytes(method: u8, flags: u8)
    ensures
        (zlib_fault(method as nat, flags as nat) is None) == zlib_header_possible(method, flags),
{
    let f = flags as u16;
    assert((f & 0x20 != 0) == ((f / 32) % 2 == 1)) by (bit_vector)
        requires
            f < 256,
    ;
    assert(method as nat * 256 + flags as nat == 256 * method + flags);
}

/// A zlib header is decoded, and only a zlib header is.
pub proof fn lemma_zlib_header(setup: Setup, data: Seq<u8>, out: Seq<u8>) -> (q: Progress)
    requires
        setup.kind is Zlib,
        data.len() >= 2,
        zlib_header_possible(data[0], data[1]),
    ensures
        up_to_next(setup, data, origin(out)) == up_to_next(setup, data, q),
        q.state is Block,
        q.pos == 16,
        !q.gzip,
        q.start == out.len(),
        q.out == out,
{
    let p = origin(out);
    lemma_byte_read(data, 0);
    lemma_byte_read(data, 1);
    lemma_zlib_bytes(data[0], data[1]);
    lemma_at_start(setup, p);
    lemma_next(setup, data, p);
    step(setup, data, p)->0
}

pub proof fn explain_zlib_header(setup: Setup, data: Seq<u8>, out: Seq<u8>)
    requires
        setup.kind is Zlib,
        settled(up_to_next(setup, data, origin(out))),
    ensures
        data.len() >= 2,
        zlib_header_possible(data[0], data[1]),
{
    let p = origin(out);
    let a = lemma_goes_on(setup, data, p);
    lemma_byte_read(data, 0);
    lemma_byte_read(data, 1);
    lemma_at_start(setup, p);
    lemma_zlib_bytes(data[0], data[1]);
}

} // verus!
