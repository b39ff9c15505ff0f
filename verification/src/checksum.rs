//! Running checksums over the data.

use vstd::prelude::*;

verus! {

/// A running checksum fed by an [`Output`](crate::Output).
///
/// Outputs hand every decompressed byte to `update` exactly once, in order,
/// in whatever chunking is convenient for them.
pub trait Checksum: Sized {
    /// The checksum once `data` has been fed into it.
    spec fn absorb(self, data: Seq<u8>) -> Self;

    /// Nothing makes no difference.
    proof fn absorb_nothing(self)
        ensures
            self.absorb(Seq::<u8>::empty()) == self,
    ;

    /// How the data is cut makes no difference.
    proof fn absorb_joined(self, a: Seq<u8>, b: Seq<u8>)
        ensures
            self.absorb(a).absorb(b) == self.absorb(a + b),
    ;

    /// Feeds `data` into the checksum.
    fn update(&mut self, data: &[u8])
        ensures
            *final(self) == (*old(self)).absorb(data@),
    ;
}

/// No checksum: raw deflate.
impl Checksum for () {
    open spec fn absorb(self, data: Seq<u8>) -> Self {
        self
    }

    proof fn absorb_nothing(self) {
    }

    proof fn absorb_joined(self, a: Seq<u8>, b: Seq<u8>) {
    }

    fn update(&mut self, data: &[u8]) {
    }
}

/// One bit of the division that makes a CRC-32.
pub open spec fn crc_bit(c: u32) -> u32 {
    if c & 1 != 0 {
        0xedb8_8320u32 ^ (c >> 1)
    } else {
        c >> 1
    }
}

/// Four bits of it.
pub open spec fn crc_nibble(c: u32) -> u32 {
    crc_bit(crc_bit(crc_bit(crc_bit(c))))
}

/// The CRC-32 register `c`, past the byte `byte`.
pub open spec fn crc_byte(c: u32, byte: u8) -> u32 {
    crc_nibble(crc_nibble(c ^ (byte as u32)))
}

/// The CRC-32 register `c`, past `data`.
pub open spec fn crc_from(c: u32, data: Seq<u8>) -> u32
    decreases data.len(),
{
    if data.len() == 0 {
        c
    } else {
        crc_byte(crc_from(c, data.drop_last()), data.last())
    }
}

/// The CRC-32 of `data`, as gzip uses it.
pub open spec fn crc32(data: Seq<u8>) -> u32 {
    !crc_from(0xffff_ffffu32, data)
}

proof fn lemma_crc_joined(c: u32, a: Seq<u8>, b: Seq<u8>)
    ensures
        crc_from(crc_from(c, a), b) == crc_from(c, a + b),
    decreases b.len(),
{
    if b.len() == 0 {
        assert(a + b =~= a);
    } else {
        lemma_crc_joined(c, a, b.drop_last());
        assert((a + b).drop_last() =~= a + b.drop_last());
    }
}

/// `crc_nibble` of every number below sixteen.
pub const CRC_TABLE: [u32; 16] = [
    0x0000_0000, 0x1db7_1064, 0x3b6e_20c8, 0x26d9_30ac,
    0x76dc_4190, 0x6b6b_51f4, 0x4db2_6158, 0x5005_713c,
    0xedb8_8320, 0xf00f_9344, 0xd6d6_a3e8, 0xcb61_b38c,
    0x9b64_c2b0, 0x86d3_d2d4, 0xa00a_e278, 0xbdbd_f21c,
];

/// The table holds what it is there for.
proof fn lemma_crc_table(i: u32)
    requires
        i < 16,
    ensures
        CRC_TABLE@[i as int] == crc_nibble(i),
{
    assert(crc_nibble(0) == 0x0000_0000u32 && crc_nibble(1) == 0x1db7_1064u32
        && crc_nibble(2) == 0x3b6e_20c8u32 && crc_nibble(3) == 0x26d9_30acu32
        && crc_nibble(4) == 0x76dc_4190u32 && crc_nibble(5) == 0x6b6b_51f4u32
        && crc_nibble(6) == 0x4db2_6158u32 && crc_nibble(7) == 0x5005_713cu32
        && crc_nibble(8) == 0xedb8_8320u32 && crc_nibble(9) == 0xf00f_9344u32
        && crc_nibble(10) == 0xd6d6_a3e8u32 && crc_nibble(11) == 0xcb61_b38cu32
        && crc_nibble(12) == 0x9b64_c2b0u32 && crc_nibble(13) == 0x86d3_d2d4u32
        && crc_nibble(14) == 0xa00a_e278u32 && crc_nibble(15) == 0xbdbd_f21cu32) by (bit_vector);
}

/// Four bits at a time, with a table for those that fall off.
fn crc_lookup(c: u32) -> (r: u32)
    ensures
        r == crc_nibble(c),
{
    let low: u32 = c & 0xf;
    proof {
        assert(c & 0xf < 16) by (bit_vector);
        lemma_crc_table(low);
        assert(crc_nibble(c) == crc_nibble(c & 0xf) ^ (c >> 4)) by (bit_vector);
    }
    CRC_TABLE[low as usize] ^ (c >> 4)
}

/// A running CRC-32.
pub struct Crc32(u32);

impl Crc32 {
    /// The checksum of the data fed so far.
    pub closed spec fn sum(self) -> u32 {
        !self.0
    }

    /// A checksum of nothing.
    pub closed spec fn blank() -> Self {
        Crc32(0xffff_ffffu32)
    }

    /// What comes of a checksum of nothing that is fed `data`.
    pub proof fn lemma_sum(data: Seq<u8>)
        ensures
            Self::blank().absorb(data).sum() == crc32(data),
    {
    }

    /// A checksum of nothing yet.
    pub fn new() -> (r: Self)
        ensures
            r == Self::blank(),
            r.sum() == crc32(Seq::<u8>::empty()),
    {
        Crc32(0xffff_ffff)
    }

    /// The checksum.
    pub fn value(&self) -> (r: u32)
        ensures
            r == self.sum(),
    {
        !self.0
    }
}

impl Checksum for Crc32 {
    closed spec fn absorb(self, data: Seq<u8>) -> Self {
        Crc32(crc_from(self.0, data))
    }

    proof fn absorb_nothing(self) {
    }

    proof fn absorb_joined(self, a: Seq<u8>, b: Seq<u8>) {
        lemma_crc_joined(self.0, a, b);
    }

    fn update(&mut self, data: &[u8]) {
        let mut c: u32 = self.0;
        let mut i: usize = 0;
        while i < data.len()
            invariant
                i <= data.len(),
                c == crc_from(old(self).0, data@.take(i as int)),
            decreases data.len() - i,
        {
            c = crc_lookup(crc_lookup(c ^ data[i] as u32));
            i += 1;
            assert(data@.take(i as int).drop_last() =~= data@.take(i - 1));
        }
        assert(data@.take(i as int) =~= data@);
        self.0 = c;
    }
}

/// The modulus of Adler-32, the largest prime below two to the power 16.
pub const ADLER_MOD: u32 = 65521;

/// The two sums of Adler-32, `a` and `b`, past `data`.
pub open spec fn adler_from(a: int, b: int, data: Seq<u8>) -> (int, int)
    decreases data.len(),
{
    if data.len() == 0 {
        (a, b)
    } else {
        let (a1, b1) = adler_from(a, b, data.drop_last());
        let a2 = (a1 + data.last()) % 65521;
        (a2, (b1 + a2) % 65521)
    }
}

/// The Adler-32 of `data`, as zlib uses it.
pub open spec fn adler32(data: Seq<u8>) -> int {
    let (a, b) = adler_from(1, 0, data);
    b * 65536 + a
}

proof fn lemma_adler_joined(a: int, b: int, x: Seq<u8>, y: Seq<u8>)
    ensures
        ({
            let (a1, b1) = adler_from(a, b, x);
            adler_from(a1, b1, y) == adler_from(a, b, x + y)
        }),
    decreases y.len(),
{
    if y.len() == 0 {
        assert(x + y =~= x);
    } else {
        lemma_adler_joined(a, b, x, y.drop_last());
        assert((x + y).drop_last() =~= x + y.drop_last());
    }
}

proof fn lemma_adler_bound(a: int, b: int, data: Seq<u8>, bound: int)
    requires
        0 <= a < bound,
        0 <= b < bound,
        65521 <= bound,
    ensures
        0 <= adler_from(a, b, data).0 < bound,
        0 <= adler_from(a, b, data).1 < bound,
    decreases data.len(),
{
    if data.len() > 0 {
        lemma_adler_bound(a, b, data.drop_last(), bound);
    }
}

/// The most that the second sum can reach over `k` bytes, reduced sums to
/// start with.
#[verifier::opaque]
spec fn adler_most(k: int) -> int {
    65520 + k * 65520 + 255 * (k * (k + 1) / 2)
}

proof fn lemma_adler_most(k: int)
    requires
        0 <= k <= 5552,
    ensures
        adler_most(k) <= u32::MAX,
        k == 0 ==> adler_most(k) == 65520,
        k > 0 ==> adler_most(k) == adler_most(k - 1) + 65520 + 255 * k,
{
    reveal(adler_most);
    assert(k * (k + 1) <= 5552 * 5553) by (nonlinear_arith)
        requires
            0 <= k <= 5552,
    ;
    assert(k * (k + 1) == (k - 1) * k + 2 * k) by (nonlinear_arith);
}

/// Sums can be reduced late.
proof fn lemma_adler_step(a: int, b: int, first: (int, int), data: Seq<u8>)
    requires
        data.len() > 0,
        (a % 65521, b % 65521) == adler_from(first.0, first.1, data.drop_last()),
    ensures
        ((a + data.last()) % 65521, (b + (a + data.last())) % 65521) == adler_from(
            first.0,
            first.1,
            data,
        ),
{
}

/// A running Adler-32.
pub struct Adler32 {
    a: u32,
    b: u32,
}

impl Adler32 {
    #[verifier::type_invariant]
    spec fn reduced(self) -> bool {
        self.a < 65521 && self.b < 65521
    }

    /// The checksum of the data fed so far.
    pub closed spec fn sum(self) -> int {
        self.b * 65536 + self.a
    }

    /// A checksum of nothing.
    pub closed spec fn blank() -> Self {
        Adler32 { a: 1, b: 0 }
    }

    /// What comes of a checksum of nothing that is fed `data`.
    pub proof fn lemma_sum(data: Seq<u8>)
        ensures
            Self::blank().absorb(data).sum() == adler32(data),
            0 <= adler32(data) <= u32::MAX,
    {
        lemma_adler_bound(1, 0, data, 65521);
    }

    /// A checksum of nothing yet.
    pub fn new() -> (r: Self)
        ensures
            r == Self::blank(),
            r.sum() == adler32(Seq::<u8>::empty()),
    {
        Adler32 { a: 1, b: 0 }
    }

    /// The checksum.
    pub fn value(&self) -> (r: u32)
        ensures
            r == self.sum(),
    {
        proof {
            use_type_invariant(self);
        }
        self.b * 65536 + self.a
    }
}

impl Checksum for Adler32 {
    closed spec fn absorb(self, data: Seq<u8>) -> Self {
        let (a, b) = adler_from(self.a as int, self.b as int, data);
        Adler32 { a: a as u32, b: b as u32 }
    }

    proof fn absorb_nothing(self) {
    }

    proof fn absorb_joined(self, a: Seq<u8>, b: Seq<u8>) {
        lemma_adler_joined(self.a as int, self.b as int, a, b);
        lemma_adler_bound(self.a as int, self.b as int, a, 0x1_0000_0000);
        lemma_adler_bound(self.a as int, self.b as int, a + b, 0x1_0000_0000);
    }

    fn update(&mut self, data: &[u8]) {
        proof {
            use_type_invariant(&*self);
        }
        let mut a: u32 = self.a;
        let mut b: u32 = self.b;
        let mut i: usize = 0;
        while i < data.len()
            invariant
                i <= data.len(),
                a < 65521,
                b < 65521,
                (a as int, b as int) == adler_from(old(self).a as int, old(self).b as int, data@.take(i as int)),
            decreases data.len() - i,
        {
            // 5552 is the most bytes that can be summed before `b` overflows.
            let end: usize = if data.len() - i > 5552 { i + 5552 } else { data.len() };
            let ghost first = i;
            proof {
                lemma_adler_most(0);
            }
            while i < end
                invariant
                    first <= i <= end <= data.len(),
                    end <= first + 5552,
                    a <= 65520 + 255 * (i - first),
                    b <= adler_most(i - first),
                    (a as int % 65521, b as int % 65521) == adler_from(
                        old(self).a as int,
                        old(self).b as int,
                        data@.take(i as int),
                    ),
                decreases end - i,
            {
                proof {
                    lemma_adler_most(i + 1 - first);
                    assert(data@.take(i + 1).drop_last() =~= data@.take(i as int));
                    lemma_adler_step(
                        a as int,
                        b as int,
                        (old(self).a as int, old(self).b as int),
                        data@.take(i + 1),
                    );
                }
                a += data[i] as u32;
                b += a;
                i += 1;
            }
            a %= ADLER_MOD;
            b %= ADLER_MOD;
        }
        assert(data@.take(i as int) =~= data@);
        *self = Adler32 { a, b };
    }
}

} // verus!
