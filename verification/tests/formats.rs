//! Exact streams, checksums and errors, and what holds of every stream, on
//! concrete values.

use std::io::Write;

use flate2::write::{DeflateEncoder, GzEncoder};
use flate2::Compression;
use minizlib::checksum::{Adler32, Crc32};
use minizlib::{
    decompress, decompress_len, deflate, gunzip, gunzip_len, gzip, gzip_size_hint, inflate,
    inflate_len, unzlib, unzlib_len, zlib, Buffer, BufferedCompressor, Bytes, Checksum, Compressor,
    Counter, Decompressor, Detect, Error, Gzip, Output, Raw, Reader, Stream, Zlib, NO_LIMIT,
};

const HELLO: &[u8] = b"hello hello hello hello";

/// `HELLO`, as a raw deflate stream made with a table of 256 entries.
const HELLO_RAW: [u8; 11] = [
    0xca, 0x48, 0xcd, 0xc9, 0xc9, 0x57, 0xc0, 0x20, 0x01, 0x03, 0x00,
];

/// `HELLO`, as `gzip` compresses it.
const HELLO_GZ: [u8; 28] = [
    0x1f, 0x8b, 0x08, 0x00, 0x00, 0x00, 0x00, 0x00, 0x02, 0xff, 0xcb, 0x48, 0xcd, 0xc9, 0xc9, 0x57,
    0xc8, 0x40, 0x27, 0x01, 0xe3, 0x51, 0x3d, 0x8d, 0x17, 0x00, 0x00, 0x00,
];

fn raw(data: &[u8], entries: usize) -> Vec<u8> {
    let mut table = vec![0; entries];
    let mut out = vec![0; 2 * data.len() + 64];
    let len = deflate(data, &mut table, Buffer::new(&mut out)).unwrap() as usize;
    out.truncate(len);
    out
}

fn gz(data: &[u8], entries: usize) -> Vec<u8> {
    let mut table = vec![0; entries];
    let mut out = vec![0; 2 * data.len() + 64];
    let len = gzip(data, &mut table, Buffer::new(&mut out)).unwrap() as usize;
    out.truncate(len);
    out
}

fn zl(data: &[u8], entries: usize) -> Vec<u8> {
    let mut table = vec![0; entries];
    let mut out = vec![0; 2 * data.len() + 64];
    let len = zlib(data, &mut table, Buffer::new(&mut out)).unwrap() as usize;
    out.truncate(len);
    out
}

/// Data that is neither all the same nor all different.
fn mixed(len: usize) -> Vec<u8> {
    (0..len).map(|i| ((i * i) >> 3) as u8).collect()
}

#[test]
fn crc32_of_known_data() {
    let mut crc = Crc32::new();
    assert_eq!(crc.value(), 0);
    crc.update(b"123456789");
    assert_eq!(crc.value(), 0xcbf4_3926);
    let mut crc = Crc32::new();
    crc.update(HELLO);
    assert_eq!(crc.value(), 0x8d3d_51e3);
}

#[test]
fn adler32_of_known_data() {
    let mut adler = Adler32::new();
    assert_eq!(adler.value(), 1);
    adler.update(b"Wikipedia");
    assert_eq!(adler.value(), 0x11e6_0398);
    let mut adler = Adler32::new();
    adler.update(HELLO);
    assert_eq!(adler.value(), 0x6803_08b1);
}

/// Long runs of the largest byte, which overflow first.
#[test]
fn adler32_does_not_overflow() {
    let data = vec![0xff; 20_000];
    let (mut a, mut b) = (1u64, 0u64);
    for byte in &data {
        a = (a + *byte as u64) % 65_521;
        b = (b + a) % 65_521;
    }
    let mut adler = Adler32::new();
    adler.update(&data);
    assert_eq!(adler.value() as u64, b << 16 | a);
}

#[test]
fn checksums_do_not_depend_on_chunking() {
    let data = mixed(10_000);
    let (mut crc, mut adler) = (Crc32::new(), Adler32::new());
    crc.update(&data);
    adler.update(&data);
    for size in [1, 7, 5_552, 9_999] {
        let (mut other, mut another) = (Crc32::new(), Adler32::new());
        for chunk in data.chunks(size) {
            other.update(chunk);
            another.update(chunk);
        }
        assert_eq!(other.value(), crc.value());
        assert_eq!(another.value(), adler.value());
    }
}

#[test]
fn exact_raw_streams() {
    assert_eq!(raw(b"", 0), [0x03, 0x00]);
    assert_eq!(raw(b"a", 0), [0x4a, 0x04, 0x0c, 0x00]);
    assert_eq!(raw(b"aaaaaaaa", 1), [0x4a, 0x84, 0x02, 0xc0, 0x00]);
    assert_eq!(raw(HELLO, 256), HELLO_RAW);
    assert_eq!(
        raw(b"abc abc abc", 16),
        [0x4a, 0x4c, 0x4a, 0x56, 0x48, 0x4c, 0x02, 0x63, 0xc0, 0x00]
    );
}

#[test]
fn exact_containers() {
    assert_eq!(
        gz(b"", 0),
        [
            0x1f, 0x8b, 8, 0, 0, 0, 0, 0, 0, 0xff, 0x03, 0x00, 0, 0, 0, 0, 0, 0, 0, 0
        ]
    );
    assert_eq!(zl(b"", 0), [0x78, 0x01, 0x03, 0x00, 0, 0, 0, 1]);
    let mut expected = vec![0x1f, 0x8b, 8, 0, 0, 0, 0, 0, 0, 0xff];
    expected.extend(HELLO_RAW);
    expected.extend([0xe3, 0x51, 0x3d, 0x8d, 23, 0, 0, 0]);
    assert_eq!(gz(HELLO, 256), expected);
    let mut expected = vec![0x78, 0x01];
    expected.extend(HELLO_RAW);
    expected.extend([0x68, 0x03, 0x08, 0xb1]);
    assert_eq!(zl(HELLO, 256), expected);
}

#[test]
fn a_chunk_is_a_block() {
    let mut table = [0; 4];
    let mut out = [0; 64];
    let mut compressor = Compressor::<_, Raw>::new(Buffer::new(&mut out), &mut table);
    compressor.write(b"ab").unwrap();
    compressor.write(b"").unwrap();
    compressor.write(b"ab").unwrap();
    assert_eq!(compressor.finish(), Ok(8));
    assert_eq!(
        out[..8],
        [0x4a, 0x4c, 0x02, 0x28, 0x31, 0x09, 0x30, 0x00]
    );
}

#[test]
fn documented_example() {
    let mut out = [0; 64];
    let len = gunzip(&HELLO_GZ[..], Buffer::new(&mut out)).unwrap() as usize;
    assert_eq!(&out[..len], HELLO);
    assert_eq!(gunzip_len(&HELLO_GZ[..], 1 << 20), Ok(23));

    let mut source = HELLO_GZ.chunks(5);
    let mut scratch = [0; 16];
    let input = Reader::new(&mut scratch, |buf: &mut [u8]| {
        let chunk = source.next().unwrap_or(&[]);
        buf[..chunk.len()].copy_from_slice(chunk);
        Ok(chunk.len())
    });
    let mut window = [0; 32768];
    let mut total = 0;
    let output = Stream::new(&mut window, 1 << 20, |data: &[u8]| {
        total += data.len();
        Ok(())
    });
    assert_eq!(gunzip(input, output), Ok(23));
    assert_eq!(total, 23);
}

#[test]
fn what_the_table_holds_makes_no_difference() {
    let data = mixed(5_000);
    for entries in [1, 3, 64, 1_000, 8_192] {
        let expected = raw(&data, entries);
        let mut table: Vec<u16> = (0..entries).map(|i| (i * 40_503) as u16).collect();
        let mut out = vec![0; 10_000];
        for _ in 0..3 {
            let len = deflate(&data, &mut table, Buffer::new(&mut out)).unwrap() as usize;
            assert_eq!(out[..len], expected);
        }
    }
}

#[test]
fn growth_is_an_eighth_at_worst() {
    // Bytes from 144 up take nine bits each.
    let data: Vec<u8> = (0..1_000u32).map(|i| 144 + (i * 37 % 112) as u8).collect();
    assert_eq!(raw(&data, 0).len(), (9 * 1_000 + 10 + 10 + 7) / 8);
    for entries in [0, 16, 4_096] {
        assert!(raw(&data, entries).len() <= (9 * data.len() + 27) / 8);
        assert_eq!(gz(&data, entries).len(), raw(&data, entries).len() + 18);
        assert_eq!(zl(&data, entries).len(), raw(&data, entries).len() + 6);
    }
}

#[test]
fn size_hints() {
    for len in [0, 1, 23, 300, 70_000] {
        assert_eq!(gzip_size_hint(&gz(&mixed(len), 64)), Some(len as u32));
    }
    assert_eq!(gzip_size_hint(&HELLO_GZ), Some(23));
    assert_eq!(gzip_size_hint(&HELLO_GZ[..19]), None);
    let mut any = [0; 20];
    any[16..].copy_from_slice(&[0x78, 0x56, 0x34, 0x12]);
    assert_eq!(gzip_size_hint(&any), Some(0x1234_5678));
}

#[test]
fn size_hints_of_any_member() {
    for level in 0..10 {
        for len in [0, 1, 300, 70_000] {
            let mut encoder = GzEncoder::new(Vec::new(), Compression::new(level));
            encoder.write_all(&mixed(len)).unwrap();
            let packed = encoder.finish().unwrap();
            assert_eq!(gzip_size_hint(&packed), Some(len as u32));
            let two = [&HELLO_GZ[..], &packed[..]].concat();
            assert_eq!(gzip_size_hint(&two), Some(len as u32));
        }
    }
    // The smallest there is.
    assert_eq!(gz(b"", 0).len(), 20);
}

#[test]
fn detection_goes_by_the_first_byte() {
    let mut out = [0; 64];
    for stream in [gz(HELLO, 16), zl(HELLO, 16)] {
        let mut buffer = Buffer::new(&mut out);
        assert_eq!(decompress(&stream[..], &mut buffer), Ok(23));
        assert_eq!(buffer.filled(), HELLO);
        assert_eq!(decompress_len(&stream[..], NO_LIMIT), Ok(23));
    }
    assert_eq!(
        decompress_len(&HELLO_RAW[..], NO_LIMIT),
        Err(Error::InvalidHeader)
    );
    assert_eq!(decompress_len(&[0x1f, 0x8c][..], NO_LIMIT), Err(Error::InvalidHeader));
}

#[test]
fn every_truncation_shows() {
    let data = mixed(500);
    let mut out = [0; 500];
    for stream in [raw(&data, 64), zl(&data, 64), gz(&data, 64)] {
        for len in 0..stream.len() {
            let mut buffer = Buffer::new(&mut out);
            let input = &stream[..len];
            let result = if stream.len() == raw(&data, 64).len() {
                inflate(input, &mut buffer)
            } else {
                decompress(input, &mut buffer)
            };
            assert_eq!(result, Err(Error::UnexpectedEof));
            assert!(data.starts_with(buffer.filled()));
        }
    }
}

#[test]
fn lengths_are_told() {
    let data = mixed(3_000);
    assert_eq!(inflate_len(&raw(&data, 64)[..], 3_000), Ok(3_000));
    assert_eq!(unzlib_len(&zl(&data, 64)[..], 3_000), Ok(3_000));
    assert_eq!(gunzip_len(&gz(&data, 64)[..], 3_000), Ok(3_000));
    assert_eq!(
        inflate_len(&raw(&data, 64)[..], 2_999),
        Err(Error::OutputFull)
    );
    assert_eq!(inflate_len(&raw(b"", 0)[..], 0), Ok(0));
}

#[test]
fn members_are_joined() {
    let mut stream = gz(b"one, ", 16);
    stream.extend(gz(b"", 16));
    stream.extend(HELLO_GZ);
    let mut out = [0; 64];
    let mut buffer = Buffer::new(&mut out);
    assert_eq!(gunzip(&stream[..], &mut buffer), Ok(28));
    assert_eq!(buffer.filled(), b"one, hello hello hello hello");
    assert_eq!(gunzip_len(&stream[..], NO_LIMIT), Ok(28));
    assert_eq!(decompress_len(Bytes(stream.iter().copied()), NO_LIMIT), Ok(28));
}

#[test]
fn pieces_make_no_difference() {
    let data = mixed(2_000);
    let stream = gz(&data, 256);
    for size in 1..40 {
        let mut out = vec![0; data.len()];
        let mut buffer = Buffer::new(&mut out);
        let mut decompressor = Decompressor::<_, Detect>::new(&mut buffer);
        for piece in stream.chunks(size) {
            assert_eq!(decompressor.write(piece), Ok(piece.len()));
        }
        assert!(!decompressor.is_done());
        assert_eq!(decompressor.finish(), Ok(2_000));
        assert_eq!(buffer.filled(), data);
    }
}

#[test]
fn the_end_of_the_stream_is_told() {
    let mut stream = zl(HELLO, 16);
    let len = stream.len();
    stream.extend(b"more");
    let mut out = [0; 23];
    let mut decompressor = Decompressor::<_, Zlib>::new(Buffer::new(&mut out));
    assert!(!decompressor.is_done());
    assert_eq!(decompressor.write(&stream), Ok(len));
    assert!(decompressor.is_done());
    assert_eq!(decompressor.write(b"even more"), Ok(0));
    assert_eq!(decompressor.finish(), Ok(23));
    assert_eq!(&out[..], HELLO);
}

#[test]
fn unfinished_streams_are_told() {
    let mut decompressor = Decompressor::<_, Raw>::new(Counter::new(NO_LIMIT));
    assert_eq!(decompressor.finish(), Err(Error::UnexpectedEof));
    assert_eq!(decompressor.write(&HELLO_RAW[..5]), Ok(5));
    assert_eq!(decompressor.finish(), Err(Error::UnexpectedEof));
    assert_eq!(decompressor.write(&HELLO_RAW), Ok(11));
    assert_eq!(decompressor.finish(), Ok(23));
}

/// What an earlier failure left in the output is no part of the next stream.
#[test]
fn failures_do_not_carry_over() {
    let mut out = [0; 128];
    let mut buffer = Buffer::new(&mut out);
    assert_eq!(
        inflate(&HELLO_RAW[..6], &mut buffer),
        Err(Error::UnexpectedEof)
    );
    let left = buffer.filled().len() as u64;
    assert!(left > 0);
    assert_eq!(gunzip(&HELLO_GZ[..], &mut buffer), Ok(23));
    assert_eq!(
        inflate(&HELLO_RAW[..6], &mut buffer),
        Err(Error::UnexpectedEof)
    );
    assert_eq!(unzlib(&zl(HELLO, 16)[..], &mut buffer), Ok(23));
    assert_eq!(
        inflate(&HELLO_RAW[..6], &mut buffer),
        Err(Error::UnexpectedEof)
    );
    let mut decompressor = Decompressor::<_, Detect>::new(&mut buffer);
    assert_eq!(decompressor.write(&zl(HELLO, 16)), Ok(zl(HELLO, 16).len()));
    assert_eq!(decompressor.finish(), Ok(23));
    assert_eq!(decompressor.write(&HELLO_GZ), Ok(28));
    assert_eq!(decompressor.finish(), Ok(23));
    assert_eq!(buffer.written(), 3 * left + 4 * 23);
}

#[test]
fn compression_errors_stick() {
    let mut table = [0; 16];
    let mut out = [0; 12];
    let mut buffer = Buffer::new(&mut out);
    let mut compressor = Compressor::<_, Gzip>::new(&mut buffer, &mut table);
    assert_eq!(compressor.write(&mixed(100)), Err(Error::OutputFull));
    assert_eq!(compressor.write(b""), Err(Error::OutputFull));
    assert_eq!(compressor.finish(), Err(Error::OutputFull));
    // As much as fits is there.
    assert_eq!(buffer.written(), 12);
    assert_eq!(buffer.filled()[..3], [0x1f, 0x8b, 8]);

    let mut compressor = BufferedCompressor::<_, Raw>::new(Counter::new(3), &mut table, &mut []);
    assert_eq!(compressor.write(b""), Ok(()));
    assert_eq!(compressor.finish(), Ok(2));
    assert_eq!(compressor.write(b"a"), Err(Error::OutputFull));
    assert_eq!(compressor.finish(), Err(Error::OutputFull));
}

#[test]
fn gathered_pieces_make_the_same_stream() {
    let data = mixed(1_000);
    for size in [1, 10, 333, 1_000, 2_000] {
        let mut table = [0; 256];
        let mut whole = vec![0; 4_000];
        let mut compressor = Compressor::<_, Zlib>::new(Buffer::new(&mut whole), &mut table);
        for chunk in data.chunks(size) {
            compressor.write(chunk).unwrap();
        }
        let len = compressor.finish().unwrap() as usize;
        for cut in [1, 3, 100, 999, 1_000] {
            let mut gather = vec![0; size];
            let mut out = vec![0; 4_000];
            let mut compressor =
                BufferedCompressor::<_, Zlib>::new(Buffer::new(&mut out), &mut table, &mut gather);
            for piece in data.chunks(cut) {
                compressor.write(piece).unwrap();
            }
            assert_eq!(compressor.finish(), Ok(len as u64));
            assert_eq!(out[..len], whole[..len]);
        }
    }
}

#[test]
fn headers() {
    // A zlib header of which the check fails, one that asks for a preset
    // dictionary, one for a window that is too large, one for another method.
    assert_eq!(unzlib_len(&[0x78, 0x02][..], NO_LIMIT), Err(Error::InvalidHeader));
    assert_eq!(unzlib_len(&[0x78, 0x20][..], NO_LIMIT), Err(Error::Unsupported));
    assert_eq!(unzlib_len(&[0x88, 0x1c][..], NO_LIMIT), Err(Error::Unsupported));
    assert_eq!(unzlib_len(&[0x77, 0x09][..], NO_LIMIT), Err(Error::Unsupported));
    // A gzip header with a wrong first, second and third byte, and a flag that
    // has no meaning.
    assert_eq!(gunzip_len(&[0x1e][..], NO_LIMIT), Err(Error::InvalidHeader));
    assert_eq!(gunzip_len(&[0x1f, 0x8c][..], NO_LIMIT), Err(Error::InvalidHeader));
    assert_eq!(gunzip_len(&[0x1f, 0x8b, 7][..], NO_LIMIT), Err(Error::Unsupported));
    assert_eq!(gunzip_len(&[0x1f, 0x8b, 8, 0x80][..], NO_LIMIT), Err(Error::InvalidHeader));
    assert_eq!(gunzip_len(&[0x1f, 0x8b, 8][..], NO_LIMIT), Err(Error::UnexpectedEof));
}

#[test]
fn blocks() {
    // A stored block, an empty one, and one of which the length is wrong.
    assert_eq!(inflate_len(&[1, 2, 0, 0xfd, 0xff, 7, 7][..], NO_LIMIT), Ok(2));
    assert_eq!(inflate_len(&[1, 0, 0, 0xff, 0xff][..], NO_LIMIT), Ok(0));
    assert_eq!(
        inflate_len(&[1, 2, 0, 0xfd, 0xfe, 7, 7][..], NO_LIMIT),
        Err(Error::InvalidBlock)
    );
    // The kind that there is not.
    assert_eq!(inflate_len(&[0b111][..], NO_LIMIT), Err(Error::InvalidBlock));
    // Too many literal/length symbols, too many distance symbols.
    assert_eq!(
        inflate_len(&[0b1111_1101, 0, 0][..], NO_LIMIT),
        Err(Error::InvalidBlock)
    );
    assert_eq!(
        inflate_len(&[0b0000_0101, 0b0001_1111, 0][..], NO_LIMIT),
        Err(Error::InvalidBlock)
    );
    // A code length code that is empty.
    assert_eq!(
        inflate_len(&[0b0000_0101, 0, 0, 0][..], NO_LIMIT),
        Err(Error::InvalidCode)
    );
}

#[test]
fn symbols() {
    // A match with nothing to refer to.
    assert_eq!(
        inflate_len(&[0b0000_0011, 0b0000_0010, 0][..], NO_LIMIT),
        Err(Error::InvalidDistance)
    );
    // The last two length symbols of the fixed code, and its last two distance
    // symbols, stand for nothing.
    for last in [0b0110_0011, 0b1110_0011] {
        assert_eq!(
            inflate_len(&[0b0001_1011, last, 0][..], NO_LIMIT),
            Err(Error::InvalidCode)
        );
    }
    assert_eq!(
        inflate_len(&[0b0000_0011, 0b0111_1110, 0][..], NO_LIMIT),
        Err(Error::InvalidCode)
    );
}

#[test]
fn what_follows_a_fault_is_left() {
    for (stream, taken, error) in [
        (&[0x07, 9, 9][..], 1, Error::InvalidBlock),
        (&[0x01, 1, 0, 0, 0, 9], 5, Error::InvalidBlock),
        (&[0x01, 1, 0, 0xfe, 0xff, b'x'], 6, Error::OutputFull),
        (&[0x03, 0x02, 0x00, 9], 2, Error::InvalidDistance),
    ] {
        let mut rest = stream;
        assert_eq!(inflate(&mut rest, Buffer::new(&mut [])), Err(error));
        assert_eq!(rest, &stream[taken..]);
        let mut rest = stream;
        assert_eq!(inflate_len(&mut rest, 0), Err(error));
        assert_eq!(rest, &stream[taken..]);
    }
    for (stream, taken, error) in [
        (&[0x1e, 9][..], 1, Error::InvalidHeader),
        (&[0x1f, 0, 9, 9], 2, Error::InvalidHeader),
        (&[0x1f, 0x8b, 7, 9], 3, Error::Unsupported),
        (&[0x1f, 0x8b, 8, 0x80, 9], 4, Error::InvalidHeader),
    ] {
        let mut rest = stream;
        assert_eq!(gunzip(&mut rest, Buffer::new(&mut [])), Err(error));
        assert_eq!(rest, &stream[taken..]);
        let mut rest = stream;
        assert_eq!(gunzip_len(&mut rest, NO_LIMIT), Err(error));
        assert_eq!(rest, &stream[taken..]);
    }
    for (stream, taken, error) in [
        (&[0x78, 0x00, 9][..], 2, Error::InvalidHeader),
        (&[0x79, 0x18, 9], 2, Error::Unsupported),
        (&[0x78, 0x01, 0x07, 9], 3, Error::InvalidBlock),
    ] {
        let mut rest = stream;
        assert_eq!(unzlib(&mut rest, Buffer::new(&mut [])), Err(error));
        assert_eq!(rest, &stream[taken..]);
        let mut rest = stream;
        assert_eq!(unzlib_len(&mut rest, NO_LIMIT), Err(error));
        assert_eq!(rest, &stream[taken..]);
        let mut rest = stream;
        assert_eq!(decompress(&mut rest, Buffer::new(&mut [])), Err(error));
        assert_eq!(rest, &stream[taken..]);
        let mut rest = stream;
        assert_eq!(decompress_len(&mut rest, NO_LIMIT), Err(error));
        assert_eq!(rest, &stream[taken..]);
    }
}

#[test]
fn an_input_that_failed_is_not_asked_again() {
    // Wherever it fails, zeros would go on for long, or end the stream.
    let packed = gz(&mixed(300), 64);
    for len in 0..packed.len() {
        let mut calls = 0;
        let mut scratch = vec![0; packed.len()];
        let reader = Reader::new(&mut scratch, |buf: &mut [u8]| {
            calls += 1;
            if calls == 1 && len > 0 {
                buf[..len].copy_from_slice(&packed[..len]);
                Ok(len)
            } else {
                Err(Error::Io)
            }
        });
        let mut out = vec![0; 300];
        assert_eq!(gunzip(reader, Buffer::new(&mut out)), Err(Error::Io));
        assert_eq!(calls, if len > 0 { 2 } else { 1 });
    }
}

#[test]
fn windows() {
    // A literal, then a match three bytes back.
    let stream = raw(b"abcabcabc", 64);
    let mut out = [0; 9];
    let mut buffer = Buffer::new(&mut out);
    assert_eq!(inflate(&stream[..], &mut buffer), Ok(9));
    assert_eq!(buffer.filled(), b"abcabcabc");
    let mut got = Vec::new();
    let mut window = [0; 3];
    let output = Stream::new(&mut window, NO_LIMIT, |data: &[u8]| {
        got.extend_from_slice(data);
        Ok(())
    });
    assert_eq!(inflate(&stream[..], output), Ok(9));
    assert_eq!(got, b"abcabcabc");
    let mut window = [0; 2];
    let output = Stream::new(&mut window, NO_LIMIT, |_: &[u8]| Ok(()));
    assert_eq!(inflate(&stream[..], output), Err(Error::WindowTooSmall));
    let output = Stream::new(&mut [], NO_LIMIT, |_: &[u8]| Ok(()));
    assert_eq!(inflate(&stream[..], output), Err(Error::WindowTooSmall));
    let mut window = [0; 3];
    let mut output = Stream::new(&mut window, 8, |_: &[u8]| Ok(()));
    assert_eq!(inflate(&stream[..], &mut output), Err(Error::OutputFull));
    assert_eq!(output.written(), 8);
}

#[test]
fn callbacks_fail_as_they_do() {
    let mut scratch = [0; 4];
    let reader = Reader::new(&mut scratch, |_: &mut [u8]| Err(Error::Io));
    assert_eq!(gunzip_len(reader, NO_LIMIT), Err(Error::Io));
    // More than the buffer holds.
    let reader = Reader::new(&mut scratch, |buf: &mut [u8]| {
        buf.copy_from_slice(&HELLO_GZ[..4]);
        Ok(5)
    });
    assert_eq!(gunzip_len(reader, NO_LIMIT), Err(Error::Io));
    let mut window = [0; 4];
    let output = Stream::new(&mut window, NO_LIMIT, |_: &[u8]| Err(Error::InvalidCode));
    assert_eq!(gunzip(&HELLO_GZ[..], output), Err(Error::InvalidCode));
}

#[test]
fn a_reader_keeps_what_it_fetched() {
    let data = mixed(1000);
    let mut packed = zl(&data, 64);
    let len = packed.len();
    packed.extend_from_slice(b"what follows, and then some");
    for size in 1..30 {
        let mut fetched = 0;
        let mut scratch = vec![0; size];
        let mut reader = Reader::new(&mut scratch, |buf: &mut [u8]| {
            let n = buf.len().min(packed.len() - fetched);
            buf[..n].copy_from_slice(&packed[fetched..fetched + n]);
            fetched += n;
            Ok(n)
        });
        let mut out = vec![0; data.len()];
        assert_eq!(unzlib(&mut reader, Buffer::new(&mut out)), Ok(1000));
        let left = reader.buffered().to_vec();
        assert_eq!(left, packed[len..fetched]);
        assert_eq!(out, data);
    }
}

#[test]
fn pieces_are_no_more_than_a_window() {
    let data = mixed(100_000);
    let packed = gz(&data, 4096);
    for size in [32_768, 40_000, 200_000] {
        let mut pieces: Vec<Vec<u8>> = Vec::new();
        let mut window = vec![0; size];
        let output = Stream::new(&mut window, NO_LIMIT, |piece: &[u8]| {
            pieces.push(piece.to_vec());
            Ok(())
        });
        assert_eq!(gunzip(&packed[..], output), Ok(100_000));
        assert!(pieces.iter().all(|piece| !piece.is_empty() && piece.len() <= size));
        assert_eq!(pieces.len(), data.len().div_ceil(size));
        assert_eq!(pieces.concat(), data);
    }
}

/// The pieces that a callback with a window of `size` bytes gets.
fn pieces_of(
    f: impl FnOnce(Stream<'_, &mut dyn FnMut(&[u8]) -> Result<(), Error>>) -> Result<u64, Error>,
    size: usize,
) -> Vec<Vec<u8>> {
    let mut pieces: Vec<Vec<u8>> = Vec::new();
    let mut window = vec![0; size];
    let mut sink = |piece: &[u8]| {
        pieces.push(piece.to_vec());
        Ok(())
    };
    f(Stream::new(&mut window, NO_LIMIT, &mut sink)).unwrap();
    pieces
}

/// Asserts that every piece but the last is a full window, and that they make
/// `data`.
fn assert_windows(pieces: Vec<Vec<u8>>, size: usize, data: &[u8]) {
    let expected: Vec<Vec<u8>> = data.chunks(size).map(|piece| piece.to_vec()).collect();
    assert_eq!(pieces, expected);
}

#[test]
fn every_window_is_delivered_once_full() {
    let data = mixed(1000);
    let mut none = [];
    // Many blocks, none of which has matches.
    let mut out = vec![0; 2000];
    let mut compressor = Compressor::<_, Raw>::new(Buffer::new(&mut out), &mut none);
    for chunk in data.chunks(70) {
        compressor.write(chunk).unwrap();
    }
    let len = compressor.finish().unwrap() as usize;
    out.truncate(len);
    // Stored blocks.
    let mut encoder = DeflateEncoder::new(Vec::new(), Compression::none());
    for chunk in data.chunks(100) {
        encoder.write_all(chunk).unwrap();
        encoder.flush().unwrap();
    }
    let stored = encoder.finish().unwrap();
    let (packed, framed) = (gz(&data, 0), zl(&data, 0));
    for size in [1, 7, 64, 100, 999, 1000, 1001] {
        assert_windows(pieces_of(|output| inflate(&out[..], output), size), size, &data);
        assert_windows(pieces_of(|output| inflate(&stored[..], output), size), size, &data);
        assert_windows(pieces_of(|output| gunzip(&packed[..], output), size), size, &data);
        assert_windows(pieces_of(|output| unzlib(&framed[..], output), size), size, &data);
        assert_windows(pieces_of(|output| decompress(&packed[..], output), size), size, &data);
    }
    assert_windows(pieces_of(|output| inflate(&raw(b"", 0)[..], output), 8), 8, b"");
}

#[test]
fn copies_fill_windows_too() {
    // A byte, then a copy of it.
    let data = vec![b'a'; 250];
    let packed = gz(&data, 64);
    for size in [1, 3, 8, 100, 250] {
        assert_windows(pieces_of(|output| gunzip(&packed[..], output), size), size, &data);
    }
    // A byte, then a copy that takes three windows.
    let mut window = [0; 4];
    let mut lens = Vec::new();
    let mut stream = Stream::new(&mut window, NO_LIMIT, |piece: &[u8]| {
        lens.push(piece.len());
        Ok(())
    });
    stream.put(b'x', &mut ()).unwrap();
    stream.copy(1, 12, &mut ()).unwrap();
    stream.flush(&mut ()).unwrap();
    stream.copy(4, 3, &mut ()).unwrap();
    assert_eq!(lens, [4, 4, 4, 1, 3]);
}

#[test]
fn members_are_delivered_apart() {
    let (one, two) = (mixed(10), mixed(70));
    let packed = [gz(&one, 0), gz(b"", 0), gz(&two, 0)].concat();
    let pieces = pieces_of(|output| gunzip(&packed[..], output), 64);
    assert_eq!(pieces, [&one[..], &two[..54], &two[54..]]);
}

#[test]
fn compressed_windows_are_delivered_once_full() {
    let data = mixed(300);
    let packed = gz(&data, 64);
    for size in [1, 7, 64, 1000] {
        let mut table = [0; 64];
        let pieces = pieces_of(|output| gzip(&data, &mut table, output), size);
        assert_windows(pieces, size, &packed);
    }
}

#[test]
fn every_piece_that_is_pushed_is_delivered() {
    let data = mixed(40);
    let mut encoder = DeflateEncoder::new(Vec::new(), Compression::none());
    encoder.write_all(&data).unwrap();
    let packed = encoder.finish().unwrap();
    let mut lens = Vec::new();
    let mut window = [0; 16];
    let mut decompressor = Decompressor::<_, Raw>::new(Stream::new(&mut window, NO_LIMIT, |piece: &[u8]| {
        lens.push(piece.len());
        Ok(())
    }));
    // The header of the stored block, ten bytes, and the others.
    for piece in [&packed[..5], &packed[5..15], &packed[15..]] {
        assert_eq!(decompressor.write(piece), Ok(piece.len()));
    }
    decompressor.finish().unwrap();
    assert_eq!(lens, [10, 6, 16, 8]);
}

#[test]
fn copies_from_no_distance() {
    let mut counter = Counter::new(10);
    assert_eq!(counter.copy(0, 4, &mut ()), Ok(()));
    assert_eq!(counter.copy(0, 7, &mut ()), Err(Error::OutputFull));
    assert_eq!(counter.copy(5, 1, &mut ()), Err(Error::InvalidDistance));
    assert_eq!(counter.copy(0, 6, &mut ()), Ok(()));
    assert_eq!(counter.written(), 10);

    let mut out = *b"abcdef";
    let mut buffer = Buffer::new(&mut out);
    assert_eq!(buffer.put(b'x', &mut ()), Ok(()));
    assert_eq!(buffer.copy(0, 3, &mut ()), Ok(()));
    assert_eq!(buffer.filled(), b"xbcd");
    assert_eq!(buffer.copy(0, 3, &mut ()), Err(Error::OutputFull));

    let mut got = Vec::new();
    let mut window = *b"abc";
    let mut output = Stream::new(&mut window, 5, |piece: &[u8]| {
        got.extend_from_slice(piece);
        Ok(())
    });
    assert_eq!(output.copy(0, 2, &mut ()), Ok(()));
    assert_eq!(output.flush(&mut ()), Ok(()));
    assert_eq!(output.copy(0, 4, &mut ()), Err(Error::OutputFull));
    assert_eq!(output.written(), 5);
    assert_eq!(got, b"abc");

    let mut output = Stream::new(&mut [], 0, |_: &[u8]| Ok(()));
    assert_eq!(output.copy(0, 1, &mut ()), Err(Error::WindowTooSmall));
    assert_eq!(output.copy(0, 0, &mut ()), Ok(()));
}

#[test]
fn refused_bytes_do_not_reach_the_checksum() {
    let mut out = [0; 2];
    let mut buffer = Buffer::new(&mut out);
    let mut check = Crc32::new();
    assert_eq!(buffer.put(b'a', &mut check), Ok(()));
    assert_eq!(buffer.put(b'b', &mut check), Ok(()));
    assert_eq!(buffer.put(b'c', &mut check), Err(Error::OutputFull));
    assert_eq!(buffer.copy(1, 1, &mut check), Err(Error::OutputFull));
    assert_eq!(buffer.copy(3, 1, &mut check), Err(Error::InvalidDistance));
    assert_eq!(buffer.flush(&mut check), Ok(()));
    let mut expected = Crc32::new();
    expected.update(b"ab");
    assert_eq!(check.value(), expected.value());
}

#[test]
fn nothing_is_delivered_twice() {
    let mut calls = 0;
    let mut window = [0; 64];
    let output = Stream::new(&mut window, NO_LIMIT, |_: &[u8]| {
        calls += 1;
        if calls > 1 {
            Err(Error::Io)
        } else {
            Ok(())
        }
    });
    // A byte after the stream, to end it for sure.
    let mut packed = HELLO_GZ.to_vec();
    packed.push(0);
    let mut decompressor = Decompressor::<_, Gzip>::new(output);
    assert_eq!(decompressor.write(&packed), Ok(29));
    assert!(decompressor.is_done());
    assert_eq!(decompressor.write(b"what follows"), Ok(0));
    assert_eq!(decompressor.write(b""), Ok(0));
    assert_eq!(decompressor.finish(), Ok(23));
    // An error is all there is, from then on.
    assert_eq!(decompressor.write(&[0x1f, 0x00]), Err(Error::InvalidHeader));
    assert_eq!(decompressor.write(&HELLO_GZ), Err(Error::InvalidHeader));
    assert_eq!(decompressor.write(b""), Err(Error::InvalidHeader));
    assert!(!decompressor.is_done());
    assert_eq!(decompressor.finish(), Err(Error::InvalidHeader));
}

#[test]
fn nothing_is_compressed_before_the_buffer_fills() {
    let mut window = [0; 1];
    let mut table = [0; 16];
    let mut space = [0; 8];
    let output = Stream::new(&mut window, NO_LIMIT, |_: &[u8]| Err(Error::Io));
    let mut compressor = BufferedCompressor::<_, Gzip>::new(output, &mut table, &mut space);
    assert_eq!(compressor.write(b"sev"), Ok(()));
    assert_eq!(compressor.write(b"en b"), Ok(()));
    assert_eq!(compressor.write(b""), Ok(()));
    assert_eq!(compressor.write(b"y"), Err(Error::Io));
    assert_eq!(compressor.write(b""), Err(Error::Io));
}

#[test]
fn containers_are_frames() {
    let data = mixed(500);
    let bare = raw(&data, 64);
    let mut crc = Crc32::new();
    crc.update(&data);
    let mut adler = Adler32::new();
    adler.update(&data);
    let mut framed = vec![0x1f, 0x8b, 8, 0, 0, 0, 0, 0, 0, 0xff];
    framed.extend_from_slice(&bare);
    framed.extend_from_slice(&crc.value().to_le_bytes());
    framed.extend_from_slice(&500u32.to_le_bytes());
    assert_eq!(gz(&data, 64), framed);
    let mut framed = vec![0x78, 0x01];
    framed.extend_from_slice(&bare);
    framed.extend_from_slice(&adler.value().to_be_bytes());
    assert_eq!(zl(&data, 64), framed);
}

#[test]
fn longer_streams_are_refused() {
    let data = mixed(300);
    for packed in [gz(&data, 64), zl(&data, 64)] {
        assert_eq!(decompress_len(&packed[..], 300), Ok(300));
        assert_eq!(decompress_len(&packed[..], 299), Err(Error::OutputFull));
        assert_eq!(decompress_len(&packed[..], 0), Err(Error::OutputFull));
    }
    let packed = raw(&data, 64);
    assert_eq!(inflate_len(&packed[..], 300), Ok(300));
    assert_eq!(inflate_len(&packed[..], 299), Err(Error::OutputFull));
}

#[test]
fn earlier_output_makes_no_difference() {
    let data = mixed(300);
    let packed = raw(&data, 64);
    let mut out = vec![7; 400];
    let mut buffer = Buffer::new(&mut out);
    for byte in b"there before" {
        buffer.put(*byte, &mut ()).unwrap();
    }
    let mut rest = &packed[..];
    assert_eq!(inflate(&mut rest, &mut buffer), Ok(300));
    assert!(rest.is_empty());
    assert_eq!(buffer.filled(), [&b"there before"[..], &data[..]].concat());
    // Unless it is what a copy is made from.
    let stream = [0x03, 0x02, 0x00];
    let mut out = [0; 16];
    let mut buffer = Buffer::new(&mut out);
    assert_eq!(inflate(&stream[..], &mut buffer), Err(Error::InvalidDistance));
    buffer.put(b'x', &mut ()).unwrap();
    assert_eq!(inflate(&stream[..], &mut buffer), Ok(3));
    assert_eq!(buffer.filled(), b"xxxx");
}

#[test]
fn all_the_data_is_out_before_the_trailer() {
    let data = mixed(300);
    let packed = gz(&data, 64);
    for len in 0..packed.len() {
        let mut out = vec![0; data.len()];
        let mut decompressor = Decompressor::<_, Gzip>::new(Buffer::new(&mut out));
        for piece in packed[..len].chunks(3) {
            assert_eq!(decompressor.write(piece), Ok(piece.len()));
        }
        assert_eq!(decompressor.finish(), Err(Error::UnexpectedEof));
        if len + 8 >= packed.len() {
            assert_eq!(out, data);
        }
    }
}

#[test]
fn trailers() {
    for at in 20..24 {
        let mut bad = HELLO_GZ;
        bad[at] ^= 1;
        let mut out = [0; 23];
        assert_eq!(
            gunzip(&bad[..], Buffer::new(&mut out)),
            Err(Error::ChecksumMismatch)
        );
        assert_eq!(gunzip_len(&bad[..], NO_LIMIT), Ok(23));
    }
    for at in 24..28 {
        let mut bad = HELLO_GZ;
        bad[at] ^= 1;
        assert_eq!(
            gunzip_len(&bad[..], NO_LIMIT),
            Err(Error::ChecksumMismatch)
        );
    }
}

#[test]
fn messages() {
    for (error, message) in [
        (Error::UnexpectedEof, "unexpected end of input"),
        (Error::InvalidHeader, "invalid header"),
        (Error::Unsupported, "unsupported stream"),
        (Error::InvalidBlock, "invalid deflate block"),
        (Error::InvalidCode, "invalid Huffman code"),
        (Error::InvalidDistance, "invalid back-reference distance"),
        (Error::WindowTooSmall, "window too small"),
        (Error::OutputFull, "output too long"),
        (Error::ChecksumMismatch, "checksum mismatch"),
        (Error::Io, "input/output failure"),
    ] {
        assert_eq!(error.message(), message);
    }
}
