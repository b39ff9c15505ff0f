//! What compressed streams decode to: deflate (RFC 1951), gzip (RFC 1952) and
//! zlib (RFC 1950).
//!
//! Decoding is a succession of steps. Each reads one item of the stream, 32
//! bits at most, and what comes next follows from it. `advance` takes all the
//! steps that some data allows, so that the more data there is the further it
//! gets, and how the data was cut makes no difference.

use vstd::arithmetic::power2::pow2;
use vstd::prelude::*;

use crate::bits::{align, bit_len, number};
use crate::checksum::{adler32, crc32};
use crate::error::Error;
use crate::huffman::{complete, lemma_symbol_bits, permitted, symbol_at, Found, MAX_BITS};
use crate::output::{copy_fault, copy_result, put_fault, Terms};

verus! {

/// What comes next in a stream.
#[derive(Clone, Copy)]
pub enum State {
    /// The first byte of a header, if the container has one.
    Start,
    /// A gzip header, past its first byte.
    Member,
    /// So many bytes of gzip header to skip, then the fields these flags are
    /// left of.
    Skip(u16, u16),
    /// The optional fields of a gzip header, a flag for each one left.
    Fields(u16),
    /// A block header.
    Block,
    /// The length of a stored block.
    StoredLen,
    /// So many bytes of a stored block.
    Stored(u16),
    /// The lengths of the code length code of a dynamic block, from this one.
    CodeLengths(usize),
    /// The code lengths of a dynamic block, from this one.
    Lengths(usize),
    /// A literal/length symbol.
    Length,
    /// The distance of a match of this length.
    Distance(u32),
    /// The checksum of the data.
    Checksum,
    /// The length of the data, after this checksum.
    Size(u32),
    /// Another gzip member, or nothing.
    Next,
    /// Nothing: the stream has ended.
    Done,
    /// Nothing: the stream cannot be decoded.
    Failed(Error),
}

/// A gzip header flag: there is a header CRC.
pub const FHCRC: u16 = 2;

/// A gzip header flag: there is an extra field.
pub const FEXTRA: u16 = 4;

/// A gzip header flag: there is a file name.
pub const FNAME: u16 = 8;

/// A gzip header flag: there is a comment.
pub const FCOMMENT: u16 = 16;

/// The gzip header flags that have no meaning.
pub const RESERVED: u16 = 0xe0;

/// The zlib header flag for a preset dictionary.
pub const FDICT: u16 = 0x20;

/// The order in which the code length code lengths are stored.
pub const ORDER: [u8; 19] = [16, 17, 18, 0, 8, 7, 9, 6, 10, 5, 11, 4, 12, 3, 13, 2, 14, 1, 15];

/// The containers of deflate streams.
#[derive(Clone, Copy)]
pub enum Kind {
    /// None.
    Raw,
    Zlib,
    Gzip,
    /// Gzip or zlib, whichever the first byte tells.
    Detect,
}

/// What decoding depends on, besides the stream.
pub struct Setup {
    pub kind: Kind,
    /// Whether the checksum of the data gets verified.
    pub verify: bool,
    pub terms: Terms,
}

/// How far decoding has got.
pub struct Progress {
    pub state: State,
    /// The position of the next bit in the stream, past the last one that was
    /// read if it cannot be decoded.
    pub pos: int,
    /// The output, what was there before the stream included.
    pub out: Seq<u8>,
    /// Whether this is a gzip stream.
    pub gzip: bool,
    /// Where the output of the stream, of its current member for gzip, starts.
    pub start: int,
    /// How much there was to the output where streams and members started and
    /// ended, which is where it gets delivered.
    pub marks: Set<int>,
    /// Whether the current block is the last.
    pub last: bool,
    /// How many literal/length symbols the current dynamic block defines.
    pub len_syms: nat,
    /// How many symbols it defines in all.
    pub syms: nat,
    /// How many code length symbols it defines.
    pub code_syms: nat,
    /// The code lengths that were read so far.
    pub lengths: Seq<u8>,
    /// The literal/length code, or the code length code before it.
    pub len_code: Seq<u8>,
    /// The distance code.
    pub dist_code: Seq<u8>,
}

/// Before anything was read, `out` being there already.
pub open spec fn origin(out: Seq<u8>) -> Progress {
    Progress {
        state: State::Start,
        pos: 0,
        out,
        gzip: false,
        start: 0,
        marks: Set::empty(),
        last: false,
        len_syms: 0,
        syms: 0,
        code_syms: 0,
        lengths: Seq::empty(),
        len_code: Seq::empty(),
        dist_code: Seq::empty(),
    }
}

/// The marks, with one more where the output is.
pub open spec fn marked(p: Progress) -> Set<int> {
    p.marks.insert(p.out.len() as int)
}

/// Whether there is no next step, whatever comes.
pub open spec fn halted(p: Progress) -> bool {
    p.state is Done || p.state is Failed
}

/// Decoding that cannot go on, for what was read up to position `pos`.
pub open spec fn failed(p: Progress, error: Error, pos: int) -> Progress {
    Progress { state: State::Failed(error), pos, ..p }
}

/// The number in the `n` bits at position `pos`, if they are there.
pub open spec fn read(data: Seq<u8>, pos: int, n: nat) -> Option<nat> {
    if pos + n <= bit_len(data) {
        Some(number(data, pos, n))
    } else {
        None
    }
}

/// Why a zlib header cannot be made of these two bytes, if it cannot.
pub open spec fn zlib_fault(first: nat, flags: nat) -> Option<Error> {
    if (first * 256 + flags) % 31 != 0 {
        Some(Error::InvalidHeader)
    } else if first % 16 != 8 || first / 16 > 7 || (flags as u16) & FDICT != 0 {
        // Not deflate with a window of at most 32 KiB, or a preset
        // dictionary.
        Some(Error::Unsupported)
    } else {
        None
    }
}

/// The first byte of a stream, and all there is to a zlib header.
pub open spec fn step_start(setup: Setup, data: Seq<u8>, p: Progress) -> Option<Progress> {
    if setup.kind is Raw {
        Some(Progress { state: State::Block, ..p })
    } else {
        match read(data, p.pos, 8) {
            None => None,
            Some(first) => if setup.kind is Gzip || (setup.kind is Detect && first == 0x1f) {
                if first != 0x1f {
                    Some(failed(p, Error::InvalidHeader, p.pos + 8))
                } else {
                    Some(Progress { state: State::Member, pos: p.pos + 8, marks: marked(p), ..p })
                }
            } else {
                match read(data, p.pos + 8, 8) {
                    None => None,
                    Some(flags) => match zlib_fault(first, flags) {
                        Some(error) => Some(failed(p, error, p.pos + 16)),
                        None => Some(
                            Progress {
                                state: State::Block,
                                pos: p.pos + 16,
                                gzip: false,
                                start: p.out.len() as int,
                                marks: marked(p),
                                ..p
                            },
                        ),
                    },
                }
            },
        }
    }
}

/// The fixed part of a gzip header, up to the flags.
pub open spec fn step_member(data: Seq<u8>, p: Progress) -> Option<Progress> {
    match read(data, p.pos, 8) {
        None => None,
        Some(id) => if id != 0x8b {
            Some(failed(p, Error::InvalidHeader, p.pos + 8))
        } else {
            match read(data, p.pos + 8, 8) {
                None => None,
                Some(method) => if method != 8 {
                    Some(failed(p, Error::Unsupported, p.pos + 16))
                } else {
                    match read(data, p.pos + 16, 8) {
                        None => None,
                        Some(flags) => if (flags as u16) & RESERVED != 0 {
                            Some(failed(p, Error::InvalidHeader, p.pos + 24))
                        } else {
                            // The modification time, the extra flags and the
                            // operating system do not matter.
                            Some(
                                Progress {
                                    state: State::Skip(6, flags as u16),
                                    pos: p.pos + 24,
                                    gzip: true,
                                    start: p.out.len() as int,
                                    marks: p.marks,
                                    ..origin(p.out)
                                },
                            )
                        },
                    }
                },
            }
        },
    }
}

pub open spec fn step_skip(data: Seq<u8>, p: Progress, bytes: u16, flags: u16) -> Option<Progress> {
    if bytes == 0 {
        Some(Progress { state: State::Fields(flags), ..p })
    } else {
        match read(data, p.pos, 8) {
            None => None,
            Some(_) => Some(
                Progress { state: State::Skip((bytes - 1) as u16, flags), pos: p.pos + 8, ..p },
            ),
        }
    }
}

/// The flags without the lower one of those for the name and the comment.
pub open spec fn text_done(flags: u16) -> u16 {
    if flags & FNAME != 0 {
        flags & !FNAME
    } else {
        flags & !FCOMMENT
    }
}

pub open spec fn step_fields(data: Seq<u8>, p: Progress, flags: u16) -> Option<Progress> {
    if flags & FEXTRA != 0 {
        match read(data, p.pos, 16) {
            None => None,
            Some(len) => Some(
                Progress { state: State::Skip(len as u16, flags & !FEXTRA), pos: p.pos + 16, ..p },
            ),
        }
    } else if flags & FNAME != 0 || flags & FCOMMENT != 0 {
        // Text, up to a zero.
        match read(data, p.pos, 8) {
            None => None,
            Some(byte) => Some(
                Progress {
                    state: State::Fields(if byte == 0 {
                        text_done(flags)
                    } else {
                        flags
                    }),
                    pos: p.pos + 8,
                    ..p
                },
            ),
        }
    } else if flags & FHCRC != 0 {
        // The header CRC is not verified: gzip never writes one.
        Some(Progress { state: State::Skip(2, flags & !FHCRC), ..p })
    } else {
        Some(Progress { state: State::Block, ..p })
    }
}

/// The code lengths of the fixed literal/length code.
pub open spec fn fixed_len_code() -> Seq<u8> {
    Seq::new(
        288,
        |s: int|
            if s < 144 {
                8u8
            } else if s < 256 {
                9u8
            } else if s < 280 {
                7u8
            } else {
                8u8
            },
    )
}

/// The code lengths of the fixed distance code.
pub open spec fn fixed_dist_code() -> Seq<u8> {
    Seq::new(32, |s: int| 5u8)
}

pub open spec fn step_block(data: Seq<u8>, p: Progress) -> Option<Progress> {
    match (read(data, p.pos, 1), read(data, p.pos + 1, 2)) {
        (Some(last), Some(kind)) => if kind == 0 {
            Some(
                Progress {
                    state: State::StoredLen,
                    pos: align(p.pos + 3),
                    last: last != 0,
                    ..p
                },
            )
        } else if kind == 1 {
            Some(
                Progress {
                    state: State::Length,
                    pos: p.pos + 3,
                    last: last != 0,
                    len_code: fixed_len_code(),
                    dist_code: fixed_dist_code(),
                    ..p
                },
            )
        } else if kind == 2 {
            match (read(data, p.pos + 3, 5), read(data, p.pos + 8, 5), read(data, p.pos + 13, 4)) {
                (Some(a), Some(b), Some(c)) => if a + 257 > 286 || b + 1 > 30 {
                    Some(failed(p, Error::InvalidBlock, p.pos + 17))
                } else {
                    Some(
                        Progress {
                            state: State::CodeLengths(0),
                            pos: p.pos + 17,
                            last: last != 0,
                            len_syms: a + 257,
                            syms: a + 257 + b + 1,
                            code_syms: c + 4,
                            lengths: Seq::empty(),
                            ..p
                        },
                    )
                },
                _ => None,
            }
        } else {
            Some(failed(p, Error::InvalidBlock, p.pos + 3))
        },
        _ => None,
    }
}

/// The length of a stored block, and its complement.
pub open spec fn step_stored_len(data: Seq<u8>, p: Progress) -> Option<Progress> {
    match (read(data, p.pos, 16), read(data, p.pos + 16, 16)) {
        (Some(len), Some(complement)) => if len + complement != 0xffff {
            Some(failed(p, Error::InvalidBlock, p.pos + 32))
        } else {
            Some(Progress { state: State::Stored(len as u16), pos: p.pos + 32, ..p })
        },
        _ => None,
    }
}

/// The end of a block, and of the deflate stream if this was its last.
pub open spec fn block_ended(setup: Setup, p: Progress) -> Progress {
    if !p.last {
        Progress { state: State::Block, ..p }
    } else if setup.kind is Raw {
        Progress { state: State::Done, pos: align(p.pos), marks: marked(p), ..p }
    } else {
        Progress { state: State::Checksum, pos: align(p.pos), marks: marked(p), ..p }
    }
}

/// A byte appended to the output, `state` being next.
pub open spec fn with_byte(setup: Setup, p: Progress, byte: u8, pos: int, state: State) -> Progress {
    match put_fault(setup.terms, p.out) {
        Some(error) => failed(p, error, pos),
        None => Progress { state, pos, out: p.out.push(byte), ..p },
    }
}

pub open spec fn step_stored(setup: Setup, data: Seq<u8>, p: Progress, bytes: u16) -> Option<Progress> {
    if bytes == 0 {
        Some(block_ended(setup, p))
    } else {
        match read(data, p.pos, 8) {
            None => None,
            Some(byte) => Some(
                with_byte(setup, p, byte as u8, p.pos + 8, State::Stored((bytes - 1) as u16)),
            ),
        }
    }
}

/// The lengths of the code length code, given the first `n` of them in the
/// order in which they are stored.
pub open spec fn placed(stored: Seq<u8>, n: nat) -> Seq<u8>
    decreases n,
{
    if n == 0 {
        Seq::new(19, |s: int| 0u8)
    } else {
        placed(stored, (n - 1) as nat).update(ORDER@[n - 1] as int, stored[n - 1])
    }
}

pub open spec fn step_code_lengths(data: Seq<u8>, p: Progress) -> Option<Progress> {
    if p.lengths.len() < p.code_syms {
        match read(data, p.pos, 3) {
            None => None,
            Some(len) => Some(
                Progress {
                    state: State::CodeLengths((p.lengths.len() + 1) as usize),
                    pos: p.pos + 3,
                    lengths: p.lengths.push(len as u8),
                    ..p
                },
            ),
        }
    } else {
        let code = placed(p.lengths, p.lengths.len());
        if !complete(code) {
            Some(failed(p, Error::InvalidCode, p.pos))
        } else {
            Some(
                Progress { state: State::Lengths(0), len_code: code, lengths: Seq::empty(), ..p },
            )
        }
    }
}

/// `n` times the same code length, if there is room for it.
pub open spec fn with_lengths(p: Progress, len: u8, n: nat, pos: int) -> Progress {
    if p.lengths.len() + n > p.syms {
        failed(p, Error::InvalidCode, pos)
    } else {
        Progress {
            state: State::Lengths((p.lengths.len() + n) as usize),
            pos,
            lengths: p.lengths + Seq::new(n, |i: int| len),
            ..p
        }
    }
}

/// Literal/length code lengths, directly followed by the distance ones.
pub open spec fn step_lengths(data: Seq<u8>, p: Progress) -> Option<Progress> {
    if p.lengths.len() < p.syms {
        match symbol_at(p.len_code, data, p.pos) {
            Found::Short => None,
            Found::Nothing => Some(failed(p, Error::InvalidCode, p.pos + MAX_BITS)),
            Found::Symbol(sym, n) => {
                let pos = p.pos + n;
                if sym < 16 {
                    Some(with_lengths(p, sym as u8, 1, pos))
                } else if sym == 16 {
                    if p.lengths.len() == 0 {
                        Some(failed(p, Error::InvalidCode, pos))
                    } else {
                        match read(data, pos, 2) {
                            None => None,
                            Some(more) => Some(with_lengths(p, p.lengths.last(), 3 + more, pos + 2)),
                        }
                    }
                } else if sym == 17 {
                    match read(data, pos, 3) {
                        None => None,
                        Some(more) => Some(with_lengths(p, 0, 3 + more, pos + 3)),
                    }
                } else {
                    match read(data, pos, 7) {
                        None => None,
                        Some(more) => Some(with_lengths(p, 0, 11 + more, pos + 7)),
                    }
                }
            },
        }
    } else {
        let len_code = p.lengths.take(p.len_syms as int);
        let dist_code = p.lengths.skip(p.len_syms as int);
        // A block without an end-of-block code could never finish.
        if p.lengths[256] == 0 || !permitted(len_code) || !permitted(dist_code) {
            Some(failed(p, Error::InvalidCode, p.pos))
        } else {
            Some(Progress { state: State::Length, len_code, dist_code, ..p })
        }
    }
}

/// How many extra bits follow length symbol `s`, the first one being zero:
/// four symbols for each count of extra bits, except at both ends.
pub open spec fn length_extra(s: int) -> nat {
    if s < 4 || s == 28 {
        0
    } else {
        ((s - 4) / 4) as nat
    }
}

/// The shortest length that length symbol `s` stands for.
pub open spec fn length_base(s: int) -> int {
    if s < 4 {
        s + 3
    } else if s == 28 {
        258
    } else {
        (4 + s % 4) * pow2(length_extra(s)) + 3
    }
}

/// How many extra bits follow distance symbol `s`: two symbols for each count
/// of extra bits.
pub open spec fn dist_extra(s: int) -> nat {
    if s < 2 {
        0
    } else {
        ((s - 2) / 2) as nat
    }
}

/// The shortest distance that distance symbol `s` stands for.
pub open spec fn dist_base(s: int) -> int {
    if s < 2 {
        s + 1
    } else {
        (2 + s % 2) * pow2(dist_extra(s)) + 1
    }
}

pub open spec fn step_length(setup: Setup, data: Seq<u8>, p: Progress) -> Option<Progress> {
    match symbol_at(p.len_code, data, p.pos) {
        Found::Short => None,
        Found::Nothing => Some(failed(p, Error::InvalidCode, p.pos + MAX_BITS)),
        Found::Symbol(sym, n) => if sym < 256 {
            Some(with_byte(setup, p, sym as u8, p.pos + n, State::Length))
        } else if sym == 256 {
            Some(block_ended(setup, Progress { pos: p.pos + n, ..p }))
        } else if sym - 257 > 28 {
            Some(failed(p, Error::InvalidCode, p.pos + n))
        } else {
            let extra = length_extra(sym - 257);
            match read(data, p.pos + n, extra) {
                None => None,
                Some(more) => Some(
                    Progress {
                        state: State::Distance((length_base(sym - 257) + more) as u32),
                        pos: p.pos + n + extra,
                        ..p
                    },
                ),
            }
        },
    }
}

/// A copy appended to the output.
pub open spec fn with_copy(setup: Setup, p: Progress, dist: int, len: int, pos: int) -> Progress {
    let out = copy_result(setup.terms, p.out, dist, len);
    match copy_fault(setup.terms, p.out, dist, len) {
        Some(error) => Progress { state: State::Failed(error), pos, out, ..p },
        None => Progress { state: State::Length, pos, out, ..p },
    }
}

pub open spec fn step_distance(setup: Setup, data: Seq<u8>, p: Progress, len: u32) -> Option<Progress> {
    match symbol_at(p.dist_code, data, p.pos) {
        Found::Short => None,
        Found::Nothing => Some(failed(p, Error::InvalidCode, p.pos + MAX_BITS)),
        Found::Symbol(sym, n) => if sym > 29 {
            Some(failed(p, Error::InvalidCode, p.pos + n))
        } else {
            let extra = dist_extra(sym);
            match read(data, p.pos + n, extra) {
                None => None,
                Some(more) => Some(
                    with_copy(setup, p, dist_base(sym) + more, len as int, p.pos + n + extra),
                ),
            }
        },
    }
}

/// The number whose four bytes are those of `x`, the other way round.
pub open spec fn swapped(x: int) -> int {
    (x % 256) * 0x100_0000 + (x / 0x100 % 256) * 0x1_0000 + (x / 0x1_0000 % 256) * 0x100 + x
        / 0x100_0000 % 256
}

/// The checksum that ends a stream, as a little-endian number.
pub open spec fn trailer_sum(gzip: bool, data: Seq<u8>) -> int {
    if gzip {
        crc32(data) as int
    } else {
        // Big-endian.
        swapped(adler32(data))
    }
}

/// The trailer of a stream, held against its data: the checksum, which takes
/// an output that keeps the data, and for gzip the length, which any output
/// can tell.
pub open spec fn verified(setup: Setup, p: Progress, sum: int, size: int, pos: int) -> Progress {
    let data = p.out.skip(p.start);
    if (setup.verify && sum != trailer_sum(p.gzip, data)) || (p.gzip && size != data.len()
        % 0x1_0000_0000) {
        failed(p, Error::ChecksumMismatch, pos)
    } else if p.gzip {
        Progress { state: State::Next, pos, ..p }
    } else {
        Progress { state: State::Done, pos, ..p }
    }
}

pub open spec fn step_checksum(setup: Setup, data: Seq<u8>, p: Progress) -> Option<Progress> {
    match read(data, p.pos, 32) {
        None => None,
        Some(sum) => if p.gzip {
            Some(Progress { state: State::Size(sum as u32), pos: p.pos + 32, ..p })
        } else {
            Some(verified(setup, p, sum as int, 0, p.pos + 32))
        },
    }
}

pub open spec fn step_size(setup: Setup, data: Seq<u8>, p: Progress, sum: u32) -> Option<Progress> {
    match read(data, p.pos, 32) {
        None => None,
        Some(size) => Some(verified(setup, p, sum as int, size as int, p.pos + 32)),
    }
}

/// Another member may follow. Anything else is ignored, as gzip does with
/// trailing padding.
pub open spec fn step_next(data: Seq<u8>, p: Progress) -> Option<Progress> {
    match read(data, p.pos, 8) {
        None => None,
        Some(byte) => if byte == 0x1f {
            Some(Progress { state: State::Member, pos: p.pos + 8, marks: marked(p), ..p })
        } else {
            Some(Progress { state: State::Done, pos: p.pos + 8, ..p })
        },
    }
}

/// The next step, if `data` has what it takes.
#[verifier::opaque]
pub open spec fn step(setup: Setup, data: Seq<u8>, p: Progress) -> Option<Progress> {
    match p.state {
        State::Start => step_start(setup, data, p),
        State::Member => step_member(data, p),
        State::Skip(bytes, flags) => step_skip(data, p, bytes, flags),
        State::Fields(flags) => step_fields(data, p, flags),
        State::Block => step_block(data, p),
        State::StoredLen => step_stored_len(data, p),
        State::Stored(bytes) => step_stored(setup, data, p, bytes),
        State::CodeLengths(_) => step_code_lengths(data, p),
        State::Lengths(_) => step_lengths(data, p),
        State::Length => step_length(setup, data, p),
        State::Distance(len) => step_distance(setup, data, p, len),
        State::Checksum => step_checksum(setup, data, p),
        State::Size(sum) => step_size(setup, data, p, sum),
        State::Next => step_next(data, p),
        State::Done => None,
        State::Failed(_) => None,
    }
}

/// The next step, where a stream starts.
pub proof fn lemma_at_start(setup: Setup, p: Progress)
    requires
        p.state is Start,
    ensures
        forall|data: Seq<u8>| #[trigger] step(setup, data, p) == step_start(setup, data, p),
{
    reveal(step);
}

/// The next step, where a gzip member starts.
pub proof fn lemma_at_member(setup: Setup, p: Progress)
    requires
        p.state is Member,
    ensures
        forall|data: Seq<u8>| #[trigger] step(setup, data, p) == step_member(data, p),
{
    reveal(step);
}

/// The next step, where a gzip header has bytes to skip.
pub proof fn lemma_at_skip(setup: Setup, p: Progress)
    requires
        p.state is Skip,
    ensures
        p.state matches State::Skip(bytes, flags) ==> forall|data: Seq<u8>| #[trigger]
            step(setup, data, p) == step_skip(data, p, bytes, flags),
{
    reveal(step);
}

/// The next step, in the fields of a gzip header.
pub proof fn lemma_at_fields(setup: Setup, p: Progress)
    requires
        p.state is Fields,
    ensures
        p.state matches State::Fields(flags) ==> forall|data: Seq<u8>| #[trigger]
            step(setup, data, p) == step_fields(data, p, flags),
{
    reveal(step);
}

/// The next step, at a block header.
pub proof fn lemma_at_block(setup: Setup, p: Progress)
    requires
        p.state is Block,
    ensures
        forall|data: Seq<u8>| #[trigger] step(setup, data, p) == step_block(data, p),
{
    reveal(step);
}

/// The next step, at the length of a stored block.
pub proof fn lemma_at_stored_len(setup: Setup, p: Progress)
    requires
        p.state is StoredLen,
    ensures
        forall|data: Seq<u8>| #[trigger] step(setup, data, p) == step_stored_len(data, p),
{
    reveal(step);
}

/// The next step, in a stored block.
pub proof fn lemma_at_stored(setup: Setup, p: Progress)
    requires
        p.state is Stored,
    ensures
        p.state matches State::Stored(bytes) ==> forall|data: Seq<u8>| #[trigger]
            step(setup, data, p) == step_stored(setup, data, p, bytes),
{
    reveal(step);
}

/// The next step, in the lengths of a code length code.
pub proof fn lemma_at_code_lengths(setup: Setup, p: Progress)
    requires
        p.state is CodeLengths,
    ensures
        forall|data: Seq<u8>| #[trigger] step(setup, data, p) == step_code_lengths(data, p),
{
    reveal(step);
}

/// The next step, in the code lengths of a block.
pub proof fn lemma_at_lengths(setup: Setup, p: Progress)
    requires
        p.state is Lengths,
    ensures
        forall|data: Seq<u8>| #[trigger] step(setup, data, p) == step_lengths(data, p),
{
    reveal(step);
}

/// The next step, at a literal/length symbol.
pub proof fn lemma_at_length(setup: Setup, p: Progress)
    requires
        p.state is Length,
    ensures
        forall|data: Seq<u8>| #[trigger] step(setup, data, p) == step_length(setup, data, p),
{
    reveal(step);
}

/// The next step, at a distance symbol.
pub proof fn lemma_at_distance(setup: Setup, p: Progress)
    requires
        p.state is Distance,
    ensures
        p.state matches State::Distance(len) ==> forall|data: Seq<u8>| #[trigger]
            step(setup, data, p) == step_distance(setup, data, p, len),
{
    reveal(step);
}

/// The next step, at a checksum.
pub proof fn lemma_at_checksum(setup: Setup, p: Progress)
    requires
        p.state is Checksum,
    ensures
        forall|data: Seq<u8>| #[trigger] step(setup, data, p) == step_checksum(setup, data, p),
{
    reveal(step);
}

/// The next step, at a length.
pub proof fn lemma_at_size(setup: Setup, p: Progress)
    requires
        p.state is Size,
    ensures
        p.state matches State::Size(sum) ==> forall|data: Seq<u8>| #[trigger]
            step(setup, data, p) == step_size(setup, data, p, sum),
{
    reveal(step);
}

/// The next step, after a gzip member.
pub proof fn lemma_at_next(setup: Setup, p: Progress)
    requires
        p.state is Next,
    ensures
        forall|data: Seq<u8>| #[trigger] step(setup, data, p) == step_next(data, p),
{
    reveal(step);
}

/// There is no next step at the end.
pub proof fn lemma_at_end(setup: Setup, p: Progress)
    requires
        halted(p),
    ensures
        forall|data: Seq<u8>| #[trigger] step(setup, data, p) == None::<Progress>,
{
    reveal(step);
}

/// How many steps of no bits at all can follow, at most: no more than this.
pub open spec fn rank(state: State) -> int {
    match state {
        State::Start => 6,
        State::Member => 5,
        State::Skip(_, flags) => 12 + 2 * flags,
        State::Fields(flags) => 11 + 2 * flags,
        State::Block => 5,
        State::StoredLen => 5,
        State::Stored(_) => 6,
        State::CodeLengths(_) => 7,
        State::Lengths(_) => 6,
        State::Length => 5,
        State::Distance(_) => 5,
        State::Checksum => 5,
        State::Size(_) => 5,
        State::Next => 5,
        State::Done => 0,
        State::Failed(_) => 0,
    }
}

/// How many bits of `data` are left.
pub open spec fn bits_left(data: Seq<u8>, p: Progress) -> int {
    if p.pos <= bit_len(data) {
        bit_len(data) - p.pos
    } else {
        0
    }
}

/// A step takes bits that are there, or leads to one that does.
#[verifier::spinoff_prover]
#[verifier::rlimit(30)]
pub proof fn lemma_step_shrinks(setup: Setup, data: Seq<u8>, p: Progress)
    ensures
        match step(setup, data, p) {
            None => true,
            Some(q) => {
                ||| bits_left(data, q) < bits_left(data, p)
                ||| bits_left(data, q) == bits_left(data, p) && 0 <= rank(q.state) < rank(p.state)
            },
        },
{
    match p.state {
        State::Start => {
            lemma_at_start(setup, p);
        },
        State::Member => {
            lemma_at_member(setup, p);
        },
        State::Skip(_, _) => {
            lemma_at_skip(setup, p);
        },
        State::Fields(flags) => {
            lemma_at_fields(setup, p);
            assert(flags & 2 != 0 ==> (flags & !2) < flags) by (bit_vector);
        },
        State::Block => {
            lemma_at_block(setup, p);
        },
        State::StoredLen => {
            lemma_at_stored_len(setup, p);
        },
        State::Stored(_) => {
            lemma_at_stored(setup, p);
        },
        State::CodeLengths(_) => {
            lemma_at_code_lengths(setup, p);
        },
        State::Lengths(_) => {
            lemma_at_lengths(setup, p);
            lemma_symbol_bits(p.len_code, data, p.pos, 1);
        },
        State::Length => {
            lemma_at_length(setup, p);
            lemma_symbol_bits(p.len_code, data, p.pos, 1);
        },
        State::Distance(_) => {
            lemma_at_distance(setup, p);
            lemma_symbol_bits(p.dist_code, data, p.pos, 1);
        },
        State::Checksum => {
            lemma_at_checksum(setup, p);
        },
        State::Size(_) => {
            lemma_at_size(setup, p);
        },
        State::Next => {
            lemma_at_next(setup, p);
        },
        _ => {
            lemma_at_end(setup, p);
        },
    }
}

/// How far `data` gets decoding.
#[verifier::opaque]
pub open spec fn advance(setup: Setup, data: Seq<u8>, p: Progress) -> Progress
    decreases bits_left(data, p), rank(p.state),
{
    match step(setup, data, p) {
        None => p,
        Some(q) => {
            proof {
                lemma_step_shrinks(setup, data, p);
            }
            advance(setup, data, q)
        },
    }
}

/// Whether this is about a compressed block, which may start and end anywhere
/// in a byte.
pub open spec fn within_block(state: State) -> bool {
    match state {
        State::Block => true,
        State::CodeLengths(_) => true,
        State::Lengths(_) => true,
        State::Length => true,
        State::Distance(_) => true,
        _ => false,
    }
}

/// What is not about a compressed block is on a byte boundary.
#[verifier::opaque]
pub open spec fn in_place(p: Progress) -> bool {
    p.pos % 8 == 0 || within_block(p.state) || p.state is Failed
}

/// What is read is something that the container can hold.
#[verifier::opaque]
pub open spec fn fits(setup: Setup, p: Progress) -> bool {
    &&& p.gzip || p.state is Member ==> setup.kind is Gzip || setup.kind is Detect
    &&& p.state is Checksum || p.state is Size ==> setup.kind !is Raw
    &&& p.state is Skip || p.state is Fields || p.state is Size || p.state is Next ==> p.gzip
    &&& p.state is Member ==> p.marks.contains(p.out.len() as int)
}

/// What holds of decoding all along.
pub open spec fn orderly(setup: Setup, p: Progress) -> bool {
    &&& 0 <= p.pos
    &&& 0 <= p.start
    &&& p.out.len() <= setup.terms.most
    &&& setup.kind is Gzip ==> p.gzip || p.state is Start || p.state is Member || p.state is Failed
    &&& p.start <= p.out.len() || p.state is Member || p.state is Failed
    &&& in_place(p)
    &&& fits(setup, p)
    &&& match p.state {
        State::CodeLengths(index) => {
            &&& index == p.lengths.len()
            &&& p.lengths.len() <= p.code_syms <= 19
            &&& forall|i: int| 0 <= i < p.lengths.len() ==> #[trigger] p.lengths[i] <= 7
            &&& 257 <= p.len_syms <= 286
            &&& p.len_syms < p.syms <= p.len_syms + 30
        },
        State::Lengths(index) => {
            &&& index == p.lengths.len()
            &&& p.lengths.len() <= p.syms
            &&& forall|i: int| 0 <= i < p.lengths.len() ==> #[trigger] p.lengths[i] <= 15
            &&& 257 <= p.len_syms <= 286
            &&& p.len_syms < p.syms <= p.len_syms + 30
            &&& p.len_code.len() == 19
            &&& complete(p.len_code)
        },
        State::Length => orderly_codes(p),
        State::Distance(len) => orderly_codes(p) && 3 <= len <= 258,
        _ => true,
    }
}

pub open spec fn orderly_codes(p: Progress) -> bool {
    &&& p.len_code.len() <= 288
    &&& p.dist_code.len() <= 32
    &&& permitted(p.len_code)
    &&& permitted(p.dist_code)
}

} // verus!
