# parallel_encode

Parallel tokenization of a single long input, with its logic verified in
Verus. An encoder (a function from text to an encoding) is run on overlapping
pieces of the input, in parallel, and the pieces are merged so that each keeps
only the tokens in its own region.

Two strategies:

- **Recursive splitting**: the input is split near its middle at a sentence
  or paragraph end when there is one (else at whitespace, else at a character
  boundary), both halves are encoded with an overlap and merged at the split;
  when the halves do not meet cleanly the chunk is encoded serially.
- **Block streaming**: the input is cut into blocks, each encoded with overlap
  windows on both sides; each block keeps the tokens that start in its own
  range.

## Layout

- `src/encoding.rs` — the encoding model: tokens with ids, offsets and masks.
- `src/lazy_encoding.rs` — an encoding with deferred offset shift and range
  filtering (binary search over token starts).
- `src/split_point.rs` — UTF-8 boundary search, split point search (with
  `memchr`), overlap sizes.
- `src/recursive.rs` — recursion depth, the merge of two halves, recursive
  encoding (with `rayon::join`).
- `src/streaming.rs` — block boundaries, block encoding (with rayon's parallel
  iterators) and the merge of blocks.
- `src/locality.rs` — when parallel encoding reproduces serial encoding.
- `src/lib.rs` — the entry point `encode_parallel_single`, validation against
  serial encoding, and the laws over the whole.
- `app/lib.rs` — the configuration with a floating-point bytes-per-token
  estimate, the `TOKENIZERS_PARALLELISM` switch, and the entry point as
  callers use it.
- `tests/` — unit tests and end-to-end comparisons with serial encoding.

## Main guarantees

For an encoder whose tokens never reach across the overlaps (it is *local*,
with a margin at least 3 bytes below the overlap the path takes: encoding any
piece of the text gives the serial tokens except near the piece's cut ends
and in the numbering of words),
every successful parallel result is the serial encoding
in everything but word ids, on every path and on any number of threads;
results of the parallel paths carry no word ids. With special tokens, when
the encoder adds them by the same post-processing, the result is that
post-processing of the serial encoding. With validation on, a
successful result has the ids of the serial encoding for any encoder that
gives one result per text. For an encoder whose tokens are ordered and lie
within its text, results are ordered and lie within the input (on the
streaming path, for a local encoder).
