# rzc

A file compressor with a small container format, multi-file pack archives and
integrity checks, written in Verus.

- `src/` is the library. It works on bytes and text: the `.rzst` container,
  pack archives, unpacking, repacking, searching, comparing, sealing, and what
  the command line decides and prints. Every function states what it returns,
  and Verus proves it. The laws of the formats (what was packed comes back,
  damaged data is refused, nothing is written outside the output directory) are
  public proof functions beside the code they speak of.
- `app/` is the `rzc` command: arguments, files, directories, progress bars,
  JSON.
- `tests/` runs the library on concrete data.

## Formats

Single-file container: `RZC1`, a version byte (1 or 2), the level (4 bytes), the
original length (8 bytes), in version 2 the SHA-256 of the payload (32 bytes),
then zstd frames. Numbers are little-endian.

Pack archive: `RZC1`, the version byte 3, the level (4 bytes), the number of
members (4 bytes), then for each member the length of its path (4 bytes), the
path in UTF-8, the original length (8 bytes), the SHA-256 (32 bytes), the length
of the payload (8 bytes) and the payload, zstd frames.

## What is taken on trust

Calls into zstd, sha2, hex, globset and regex stand behind small functions marked
`#[verifier::external_body]`, each with a comment on what it claims of the call.
They are in `codec.rs`, `dict.rs`, `exclude.rs` and `grep.rs`; `text.rs` states
what `String::push` does.
