//! A tiny gzip / zlib / deflate compressor and decompressor: no allocation, no
//! `unsafe`, no dependencies, no panics, and proved to do what it says.
//!
//! Pick a format, an input and an output, and go:
//!
//! | format                 | decompress     | length only        | compress    |
//! |------------------------|----------------|--------------------|-------------|
//! | gzip (RFC 1952)        | [`gunzip`]     | [`gunzip_len`]     | [`gzip`]    |
//! | zlib (RFC 1950)        | [`unzlib`]     | [`unzlib_len`]     | [`zlib`]    |
//! | raw deflate (RFC 1951) | [`inflate`]    | [`inflate_len`]    | [`deflate`] |
//! | gzip or zlib, detected | [`decompress`] | [`decompress_len`] |             |
//!
//! | input to decompress  | how                           |
//! |----------------------|-------------------------------|
//! | buffer in            | `&[u8]`, or `&mut &[u8]`      |
//! | stream in (callback) | [`Reader`]                    |
//! | stream in (iterator) | [`Bytes`]                     |
//! | stream in (pushed)   | [`Decompressor`], a piece at a time |
//! | anything else        | implement [`Input`]           |
//!
//! | input to compress    | how                           |
//! |----------------------|-------------------------------|
//! | buffer in            | `&[u8]`                       |
//! | stream in            | [`Compressor`], a chunk at a time |
//! | stream in (pushed)   | [`BufferedCompressor`], a piece at a time |
//!
//! | output                | how                 | memory needed               |
//! |-----------------------|---------------------|-----------------------------|
//! | buffer out            | [`Buffer`]          | the output buffer itself    |
//! | stream out (callback) | [`Stream`]          | a window, usually 32 KiB    |
//! | none, just the length | [`Counter`]         | none                        |
//!
//! Every path is bounded: a [`Buffer`] by its size, a [`Stream`], a
//! [`Counter`] and the length functions by a mandatory maximum length, beyond
//! which they fail with [`Error::OutputFull`] instead of letting a
//! decompression bomb run. [`NO_LIMIT`] opts out.
//!
//! The functions take their input and output by value, and `&mut` ones are
//! inputs and outputs too, to keep using them afterwards. What they borrow, the
//! slice behind a [`Buffer`] for one, is their [`place`](Output::place), and is
//! left as they leave it.
//!
//! What streams decode to is stated in [`decoding`], what data compresses to
//! in [`encoding`], and what the two have to do with each other in [`laws`].
//! What streams look like to whatever writes them is in [`syntax`]: that these
//! are the streams that decode, and what they decode to, is in [`streams`], what
//! comes of others in [`faults`], what the checksums are in [`sums`], and what
//! the compressors find in [`matching`].

use vstd::prelude::*;

mod atop;
pub mod bits;
pub mod buffered;
mod canon;
pub mod checksum;
pub mod container;
mod course;
pub mod decoding;
pub mod deflate;
pub mod encoding;
pub mod error;
mod explained;
pub mod faults;
mod fixed;
pub mod format;
mod framing;
mod header;
pub mod huffman;
mod inflate;
pub mod input;
pub mod laws;
pub mod matching;
pub mod output;
mod pull;
pub mod push;
mod reader;
mod roundtrip;
mod sealed;
mod shift;
mod single;
mod spelling;
mod steps;
pub mod streams;
pub mod sums;
pub mod syntax;
mod trailing;
mod understood;
mod writer;

pub use crate::buffered::BufferedCompressor;
pub use crate::checksum::Checksum;
pub use crate::deflate::Compressor;
pub use crate::error::{Error, NO_LIMIT};
pub use crate::format::{Container, Detect, Format, Gzip, Raw, Zlib};
pub use crate::input::{Bytes, Input, Reader};
pub use crate::output::{Buffer, Counter, Output, Stream};
pub use crate::push::Decompressor;

use crate::container::{measured, produced};
use crate::decoding::Kind;
use crate::deflate::{compress, compressed};

verus! {

/// Decompresses a raw deflate stream. Returns the number of bytes produced.
pub fn inflate<I: Input, O: Output>(input: I, output: O) -> (r: Result<u64, Error>)
    requires
        input.ready(),
        output.sound(),
    ensures
        exists|ib: I, ob: O|
            #![trigger produced(Kind::Raw, input, ib, output, ob, r)]
            produced(Kind::Raw, input, ib, output, ob, r)
                && has_resolved(ib) && has_resolved(ob)
                && &*final(ib.place()) == &*final(input.place())
                && &*final(ob.place()) == &*final(output.place()),
{
    container::run(Kind::Raw, input, output)
}

/// Decompresses a gzip stream. Returns the number of bytes produced.
///
/// All the members of the stream are decompressed one after the other.
pub fn gunzip<I: Input, O: Output>(input: I, output: O) -> (r: Result<u64, Error>)
    requires
        input.ready(),
        output.sound(),
    ensures
        exists|ib: I, ob: O|
            #![trigger produced(Kind::Gzip, input, ib, output, ob, r)]
            produced(Kind::Gzip, input, ib, output, ob, r)
                && has_resolved(ib) && has_resolved(ob)
                && &*final(ib.place()) == &*final(input.place())
                && &*final(ob.place()) == &*final(output.place()),
{
    container::run(Kind::Gzip, input, output)
}

/// Decompresses a zlib stream. Returns the number of bytes produced.
pub fn unzlib<I: Input, O: Output>(input: I, output: O) -> (r: Result<u64, Error>)
    requires
        input.ready(),
        output.sound(),
    ensures
        exists|ib: I, ob: O|
            #![trigger produced(Kind::Zlib, input, ib, output, ob, r)]
            produced(Kind::Zlib, input, ib, output, ob, r)
                && has_resolved(ib) && has_resolved(ob)
                && &*final(ib.place()) == &*final(input.place())
                && &*final(ob.place()) == &*final(output.place()),
{
    container::run(Kind::Zlib, input, output)
}

/// Decompresses a gzip or zlib stream, whichever it turns out to be. Returns
/// the number of bytes produced.
pub fn decompress<I: Input, O: Output>(input: I, output: O) -> (r: Result<u64, Error>)
    requires
        input.ready(),
        output.sound(),
    ensures
        exists|ib: I, ob: O|
            #![trigger produced(Kind::Detect, input, ib, output, ob, r)]
            produced(Kind::Detect, input, ib, output, ob, r)
                && has_resolved(ib) && has_resolved(ob)
                && &*final(ib.place()) == &*final(input.place())
                && &*final(ob.place()) == &*final(output.place()),
{
    container::run(Kind::Detect, input, output)
}

/// Returns the length a raw deflate stream decompresses to.
///
/// The stream is decoded in full, but nothing is stored, so this needs no
/// memory and is a good deal faster than decompressing. Decoding gives up with
/// [`Error::OutputFull`] once the length exceeds `max_len`; see [`NO_LIMIT`].
pub fn inflate_len<I: Input>(input: I, max_len: u64) -> (r: Result<u64, Error>)
    requires
        input.ready(),
    ensures
        exists|ib: I| #[trigger] measured(Kind::Raw, max_len, input, ib, r) && has_resolved(ib)
            && &*final(ib.place()) == &*final(input.place()),
{
    container::count(Kind::Raw, input, max_len)
}

/// Returns the length a gzip stream decompresses to.
///
/// The stream is decoded in full, but nothing is stored, so this needs no
/// memory and is a good deal faster than decompressing. Decoding gives up with
/// [`Error::OutputFull`] once the length exceeds `max_len`; see [`NO_LIMIT`].
/// The data checksum is not verified; the length recorded in the stream is.
///
/// See [`gzip_size_hint`] for a shortcut.
pub fn gunzip_len<I: Input>(input: I, max_len: u64) -> (r: Result<u64, Error>)
    requires
        input.ready(),
    ensures
        exists|ib: I| #[trigger] measured(Kind::Gzip, max_len, input, ib, r) && has_resolved(ib)
            && &*final(ib.place()) == &*final(input.place()),
{
    container::count(Kind::Gzip, input, max_len)
}

/// Returns the length a zlib stream decompresses to.
///
/// The stream is decoded in full, but nothing is stored, so this needs no
/// memory and is a good deal faster than decompressing. Decoding gives up with
/// [`Error::OutputFull`] once the length exceeds `max_len`; see [`NO_LIMIT`].
/// The data checksum is not verified.
pub fn unzlib_len<I: Input>(input: I, max_len: u64) -> (r: Result<u64, Error>)
    requires
        input.ready(),
    ensures
        exists|ib: I| #[trigger] measured(Kind::Zlib, max_len, input, ib, r) && has_resolved(ib)
            && &*final(ib.place()) == &*final(input.place()),
{
    container::count(Kind::Zlib, input, max_len)
}

/// Returns the length a gzip or zlib stream decompresses to.
///
/// The stream is decoded in full, but nothing is stored, so this needs no
/// memory and is a good deal faster than decompressing. Decoding gives up with
/// [`Error::OutputFull`] once the length exceeds `max_len`; see [`NO_LIMIT`].
/// The data checksum is not verified.
pub fn decompress_len<I: Input>(input: I, max_len: u64) -> (r: Result<u64, Error>)
    requires
        input.ready(),
    ensures
        exists|ib: I| #[trigger] measured(Kind::Detect, max_len, input, ib, r) && has_resolved(ib)
            && &*final(ib.place()) == &*final(input.place()),
{
    container::count(Kind::Detect, input, max_len)
}

/// The number that the last four bytes of `gz` stand for, the least
/// significant first.
pub open spec fn last_word(gz: Seq<u8>) -> int {
    let n = gz.len() as int;
    gz[n - 4] + 0x100 * gz[n - 3] + 0x1_0000 * gz[n - 2] + 0x100_0000 * gz[n - 1]
}

/// Reads the decompressed length recorded in the last four bytes of a gzip
/// file, without decoding anything.
///
/// This is only a hint: it is the length of the last member alone, modulo
/// 2<sup>32</sup>, it is wrong if anything follows the gzip stream in `gz`,
/// and nothing vouches for it. [`gunzip_len`] gives the real answer.
pub fn gzip_size_hint(gz: &[u8]) -> (r: Option<u32>)
    ensures
        match r {
            Some(len) => gz@.len() >= 20 && len == last_word(gz@),
            None => gz@.len() < 20,
        },
{
    // The smallest gzip file has a 10 byte header and a 2 byte deflate stream.
    let n: usize = gz.len();
    if n < 20 {
        return None;
    }
    Some(
        gz[n - 4] as u32 + 0x100 * gz[n - 3] as u32 + 0x1_0000 * gz[n - 2] as u32 + 0x100_0000 * gz[n
            - 1] as u32,
    )
}

/// Compresses `data` into a gzip stream, finding matches with `table`: see
/// [`Compressor`]. Returns the length of the stream.
pub fn gzip<O: Output>(data: &[u8], table: &mut [u16], output: O) -> (r: Result<u64, Error>)
    requires
        output.sound(),
    ensures
        exists|ob: O| #[trigger] compressed(Kind::Gzip, old(table)@.len(), data@, output, ob, r)
            && has_resolved(ob) && &*final(ob.place()) == &*final(output.place()),
        final(table)@.len() == old(table)@.len(),
{
    compress::<O, Gzip>(data, table, output)
}

/// Compresses `data` into a zlib stream, finding matches with `table`: see
/// [`Compressor`]. Returns the length of the stream.
pub fn zlib<O: Output>(data: &[u8], table: &mut [u16], output: O) -> (r: Result<u64, Error>)
    requires
        output.sound(),
    ensures
        exists|ob: O| #[trigger] compressed(Kind::Zlib, old(table)@.len(), data@, output, ob, r)
            && has_resolved(ob) && &*final(ob.place()) == &*final(output.place()),
        final(table)@.len() == old(table)@.len(),
{
    compress::<O, Zlib>(data, table, output)
}

/// Compresses `data` into a raw deflate stream, finding matches with `table`:
/// see [`Compressor`]. Returns the length of the stream.
pub fn deflate<O: Output>(data: &[u8], table: &mut [u16], output: O) -> (r: Result<u64, Error>)
    requires
        output.sound(),
    ensures
        exists|ob: O| #[trigger] compressed(Kind::Raw, old(table)@.len(), data@, output, ob, r)
            && has_resolved(ob) && &*final(ob.place()) == &*final(output.place()),
        final(table)@.len() == old(table)@.len(),
{
    compress::<O, Raw>(data, table, output)
}

} // verus!
