//! What can go wrong.

use vstd::prelude::*;

verus! {

/// The maximum length to pass for no maximum at all: the `-1` of a C API.
///
/// Think twice. Deflate can expand a thousandfold, so without a limit whoever
/// supplies the compressed data decides how long decoding runs and how much
/// comes out of it.
pub const NO_LIMIT: u64 = 0xffff_ffff_ffff_ffff;

/// Why decompression failed.
#[derive(Clone, Copy, Debug, PartialEq, Eq, Structural)]
#[non_exhaustive]
pub enum Error {
    /// The input ended before the compressed stream did.
    UnexpectedEof,
    /// The gzip or zlib header is malformed.
    InvalidHeader,
    /// The stream uses something that cannot be decoded: a compression method
    /// other than deflate, or a preset dictionary.
    Unsupported,
    /// A deflate block header is malformed.
    InvalidBlock,
    /// A Huffman code is malformed, or a symbol cannot be decoded.
    InvalidCode,
    /// A back-reference points before the start of the output.
    InvalidDistance,
    /// A back-reference points further back than the [`Stream`](crate::Stream)
    /// window holds.
    WindowTooSmall,
    /// The data is longer than the output allows: it does not fit in the
    /// [`Buffer`](crate::Buffer), or exceeds the maximum length given to a
    /// [`Stream`](crate::Stream), a [`Counter`](crate::Counter) or a `*_len`
    /// function.
    OutputFull,
    /// The decompressed data does not match its checksum or recorded length.
    ChecksumMismatch,
    /// An input or output callback failed.
    Io,
}

impl Error {
    /// The words that say what went wrong.
    pub open spec fn text(self) -> Seq<char> {
        match self {
            Error::UnexpectedEof => "unexpected end of input"@,
            Error::InvalidHeader => "invalid header"@,
            Error::Unsupported => "unsupported stream"@,
            Error::InvalidBlock => "invalid deflate block"@,
            Error::InvalidCode => "invalid Huffman code"@,
            Error::InvalidDistance => "invalid back-reference distance"@,
            Error::WindowTooSmall => "window too small"@,
            Error::OutputFull => "output too long"@,
            Error::ChecksumMismatch => "checksum mismatch"@,
            Error::Io => "input/output failure"@,
        }
    }

    /// Says in words what went wrong.
    pub fn message(&self) -> (text: &'static str)
        ensures
            text@ == self.text(),
    {
        match self {
            Error::UnexpectedEof => "unexpected end of input",
            Error::InvalidHeader => "invalid header",
            Error::Unsupported => "unsupported stream",
            Error::InvalidBlock => "invalid deflate block",
            Error::InvalidCode => "invalid Huffman code",
            Error::InvalidDistance => "invalid back-reference distance",
            Error::WindowTooSmall => "window too small",
            Error::OutputFull => "output too long",
            Error::ChecksumMismatch => "checksum mismatch",
            Error::Io => "input/output failure",
        }
    }
}

} // verus!
