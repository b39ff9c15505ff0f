//! The containers, as types: what goes around a deflate stream, and the
//! checksum of the data that goes with it.

use vstd::prelude::*;

use crate::checksum::{Adler32, Checksum, Crc32};
use crate::container::swap;
use crate::decoding::{swapped, trailer_sum, Kind};
use crate::encoding::header_of;
use crate::sealed::Sealed;

verus! {

/// Whether a stream in a container of kind `kind`, of which the first byte is
/// `first`, is a gzip one.
pub open spec fn is_gzip(kind: Kind, first: u8) -> bool {
    kind is Gzip || (kind is Detect && first == 0x1f)
}

/// Whether a container of kind `kind` can hold a gzip stream, or another one
/// that has a checksum.
pub open spec fn holds(kind: Kind, gzip: bool) -> bool {
    match kind {
        Kind::Raw => false,
        Kind::Zlib => !gzip,
        Kind::Gzip => gzip,
        Kind::Detect => true,
    }
}

/// A container for compressed data, to decompress from: [`Gzip`], [`Zlib`],
/// [`Raw`], or [`Detect`] for whichever of the first two comes.
pub trait Container: Sealed + Checksum {
    /// How many of the `trailer` words there are, at most. Zero means no
    /// header either.
    const TRAILER: usize;

    /// Which container this is.
    spec fn kind() -> Kind;

    /// A checksum of nothing, for a gzip stream or for another one.
    spec fn fresh(gzip: bool) -> Self;

    /// The trailer, given the length of the data.
    spec fn words(self, size: u32) -> Seq<u32>;

    /// Only raw streams have no trailer.
    proof fn framed()
        ensures
            Self::TRAILER <= 2,
            Self::TRAILER == 0 <==> Self::kind() is Raw,
            Self::kind() is Gzip ==> Self::TRAILER == 2,
            Self::kind() is Zlib ==> Self::TRAILER == 1,
    ;

    /// What the trailer of a stream should be.
    proof fn sums(gzip: bool, data: Seq<u8>, size: u32)
        ensures
            holds(Self::kind(), gzip) ==> {
                let words = Self::fresh(gzip).absorb(data).words(size);
                &&& words.len() == 2
                &&& words[0] == trailer_sum(gzip, data)
                &&& gzip ==> words[1] == size
            },
    ;

    /// A checksum of nothing yet.
    fn new() -> (r: Self)
        ensures
            r == Self::fresh(Self::kind() is Gzip),
    ;

    /// Whether a stream starting with `first` is a gzip one.
    fn detect(&mut self, first: u8) -> (r: bool)
        ensures
            r == is_gzip(Self::kind(), first),
            forall|gzip: bool| *old(self) == Self::fresh(gzip) ==> *final(self) == Self::fresh(r),
    ;

    /// The trailer, as little-endian words, given the length of the data
    /// modulo 2<sup>32</sup>.
    fn trailer(&self, size: u32) -> (r: [u32; 2])
        ensures
            r@ == (*self).words(size),
    ;
}

/// A container for compressed data, to compress to: [`Gzip`], [`Zlib`] or
/// [`Raw`].
pub trait Format: Container {
    /// This is no container to be detected.
    proof fn definite()
        ensures
            Self::kind() !is Detect,
    ;

    /// Byte `i` of the header, if there is one.
    fn header_byte(i: usize) -> (r: Option<u8>)
        ensures
            r == if i < header_of(Self::kind()).len() {
                Some(header_of(Self::kind())[i as int])
            } else {
                None
            },
    ;
}

/// The gzip format (RFC 1952), as produced by `gzip`.
pub struct Gzip(Crc32);

impl Sealed for Gzip {

}

impl Checksum for Gzip {
    closed spec fn absorb(self, data: Seq<u8>) -> Self {
        Gzip(self.0.absorb(data))
    }

    proof fn absorb_nothing(self) {
        self.0.absorb_nothing();
    }

    proof fn absorb_joined(self, a: Seq<u8>, b: Seq<u8>) {
        self.0.absorb_joined(a, b);
    }

    fn update(&mut self, data: &[u8]) {
        self.0.update(data);
    }
}

impl Container for Gzip {
    const TRAILER: usize = 2;

    open spec fn kind() -> Kind {
        Kind::Gzip
    }

    closed spec fn fresh(gzip: bool) -> Self {
        Gzip(Crc32::blank())
    }

    closed spec fn words(self, size: u32) -> Seq<u32> {
        seq![self.0.sum(), size]
    }

    proof fn framed() {
    }

    proof fn sums(gzip: bool, data: Seq<u8>, size: u32) {
        Crc32::lemma_sum(data);
    }

    fn new() -> (r: Self) {
        Gzip(Crc32::new())
    }

    fn detect(&mut self, first: u8) -> (r: bool) {
        true
    }

    fn trailer(&self, size: u32) -> (r: [u32; 2]) {
        let words: [u32; 2] = [self.0.value(), size];
        assert(words@ =~= (*self).words(size));
        words
    }
}

impl Format for Gzip {
    proof fn definite() {
    }

    fn header_byte(i: usize) -> (r: Option<u8>) {
        if i == 0 {
            Some(0x1f)
        } else if i == 1 {
            Some(0x8b)
        } else if i == 2 {
            Some(8)
        } else if i < 9 {
            Some(0)
        } else if i == 9 {
            Some(0xff)
        } else {
            None
        }
    }
}

/// The zlib format (RFC 1950).
pub struct Zlib(Adler32);

impl Sealed for Zlib {

}

impl Checksum for Zlib {
    closed spec fn absorb(self, data: Seq<u8>) -> Self {
        Zlib(self.0.absorb(data))
    }

    proof fn absorb_nothing(self) {
        self.0.absorb_nothing();
    }

    proof fn absorb_joined(self, a: Seq<u8>, b: Seq<u8>) {
        self.0.absorb_joined(a, b);
    }

    fn update(&mut self, data: &[u8]) {
        self.0.update(data);
    }
}

impl Container for Zlib {
    const TRAILER: usize = 1;

    open spec fn kind() -> Kind {
        Kind::Zlib
    }

    closed spec fn fresh(gzip: bool) -> Self {
        Zlib(Adler32::blank())
    }

    closed spec fn words(self, size: u32) -> Seq<u32> {
        seq![swapped(self.0.sum()) as u32, 0]
    }

    proof fn framed() {
    }

    proof fn sums(gzip: bool, data: Seq<u8>, size: u32) {
        Adler32::lemma_sum(data);
    }

    fn new() -> (r: Self) {
        Zlib(Adler32::new())
    }

    fn detect(&mut self, first: u8) -> (r: bool) {
        false
    }

    fn trailer(&self, size: u32) -> (r: [u32; 2]) {
        // Big-endian.
        let words: [u32; 2] = [swap(self.0.value()), 0];
        assert(words@ =~= (*self).words(size));
        words
    }
}

impl Format for Zlib {
    proof fn definite() {
    }

    fn header_byte(i: usize) -> (r: Option<u8>) {
        if i == 0 {
            Some(0x78)
        } else if i == 1 {
            Some(0x01)
        } else {
            None
        }
    }
}

/// A raw deflate stream (RFC 1951): no header, no checksum.
pub struct Raw;

impl Sealed for Raw {

}

impl Checksum for Raw {
    open spec fn absorb(self, data: Seq<u8>) -> Self {
        self
    }

    proof fn absorb_nothing(self) {
    }

    proof fn absorb_joined(self, a: Seq<u8>, b: Seq<u8>) {
    }

    fn update(&mut self, data: &[u8]) {
    }
}

impl Container for Raw {
    const TRAILER: usize = 0;

    open spec fn kind() -> Kind {
        Kind::Raw
    }

    open spec fn fresh(gzip: bool) -> Self {
        Raw
    }

    open spec fn words(self, size: u32) -> Seq<u32> {
        seq![0, 0]
    }

    proof fn framed() {
    }

    proof fn sums(gzip: bool, data: Seq<u8>, size: u32) {
    }

    fn new() -> (r: Self) {
        Raw
    }

    fn detect(&mut self, first: u8) -> (r: bool) {
        false
    }

    fn trailer(&self, size: u32) -> (r: [u32; 2]) {
        let words: [u32; 2] = [0, 0];
        assert(words@ =~= (*self).words(size));
        words
    }
}

impl Format for Raw {
    proof fn definite() {
    }

    fn header_byte(i: usize) -> (r: Option<u8>) {
        None
    }
}

/// Gzip or zlib, whichever the stream turns out to be. Only to decompress.
pub struct Detect {
    gzip: Gzip,
    zlib: Zlib,
    is_gzip: bool,
}

impl Sealed for Detect {

}

impl Checksum for Detect {
    closed spec fn absorb(self, data: Seq<u8>) -> Self {
        if self.is_gzip {
            Detect { gzip: self.gzip.absorb(data), ..self }
        } else {
            Detect { zlib: self.zlib.absorb(data), ..self }
        }
    }

    proof fn absorb_nothing(self) {
        self.gzip.absorb_nothing();
        self.zlib.absorb_nothing();
    }

    proof fn absorb_joined(self, a: Seq<u8>, b: Seq<u8>) {
        self.gzip.absorb_joined(a, b);
        self.zlib.absorb_joined(a, b);
    }

    fn update(&mut self, data: &[u8]) {
        if self.is_gzip {
            self.gzip.update(data);
        } else {
            self.zlib.update(data);
        }
    }
}

impl Container for Detect {
    const TRAILER: usize = 2;

    open spec fn kind() -> Kind {
        Kind::Detect
    }

    closed spec fn fresh(gzip: bool) -> Self {
        Detect { gzip: Gzip::fresh(true), zlib: Zlib::fresh(false), is_gzip: gzip }
    }

    closed spec fn words(self, size: u32) -> Seq<u32> {
        if self.is_gzip {
            self.gzip.words(size)
        } else {
            self.zlib.words(size)
        }
    }

    proof fn framed() {
    }

    proof fn sums(gzip: bool, data: Seq<u8>, size: u32) {
        if gzip {
            Gzip::sums(true, data, size);
        } else {
            Zlib::sums(false, data, size);
        }
    }

    fn new() -> (r: Self) {
        Detect { gzip: Gzip::new(), zlib: Zlib::new(), is_gzip: false }
    }

    fn detect(&mut self, first: u8) -> (r: bool) {
        // A zlib stream cannot start with 0x1f: the low nibble of its first
        // byte is the compression method, 8.
        self.is_gzip = first == 0x1f;
        self.is_gzip
    }

    fn trailer(&self, size: u32) -> (r: [u32; 2]) {
        if self.is_gzip {
            self.gzip.trailer(size)
        } else {
            self.zlib.trailer(size)
        }
    }
}

} // verus!
