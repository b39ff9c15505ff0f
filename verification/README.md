# minizlib

A tiny gzip / zlib / deflate compressor and decompressor, written in Verus: no
allocation, no `unsafe`, no dependencies, no panics, and proved to do what it
says.

```rust
use minizlib::{gunzip, gzip, Buffer};

let mut out = [0; 4096];
let len = gunzip(gz_bytes, Buffer::new(&mut out))? as usize;
let data = &out[..len];

let mut table = [0; 4096]; // to find matches with
let mut gz = [0; 4096];
let len = gzip(data, &mut table, Buffer::new(&mut gz))? as usize;
```

Every function takes any input (a slice, a callback, an iterator) with any
output (a slice, a callback through a window, a mere counter), and every path
is bounded. `Decompressor`, `Compressor` and `BufferedCompressor` take their
input in pieces, as it comes.

## What is proved

| where           | what                                                            |
|-----------------|-----------------------------------------------------------------|
| `decoding`      | what a stream decodes to, a step at a time                      |
| `encoding`      | what data compresses to, down to the bit                        |
| `container`     | that the pull decoder does the former, for any input and output |
| `push`          | that the push decoder does, however its input is cut            |
| `deflate`, `buffered` | that the compressors do the latter                        |
| `laws`          | what follows: that what was compressed comes back, that the decoders agree, that outputs are bounded, and so on |

The rest is how: the bit reader and writer, Huffman codes, checksums, and the
lemmas.

`tests/` holds the tests, which check the library against flate2 among others,
and `app/` `gzip` lookalikes over standard input and output.
