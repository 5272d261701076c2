# body_store

An append-only store for job payloads ("bodies"). Bodies live in numbered
segment files and are addressed by id, so that a log can refer to a payload
without carrying its bytes.

## Segment files

A segment file is named `body.` and its number, with at least six digits. It
starts with a file header of 16 bytes: the magic `TBOD`, a version, and eight
reserved bytes. Records follow, each a header of 20 bytes (body id, length,
CRC-32 of the body, four reserved bytes) and the body. Integers are
little-endian.

Opening a store walks the headers of all segments and changes none of them. A
record that is not complete at the end of a segment counts as absent: before the
next record is written there, the file is cut off where that record goes. Bodies
are checked against their checksums when they are read.

A header holds a body's length in 32 bits, so bodies are to be shorter than 4 GiB.

## Layout

- `src/` is the verified library. It holds what the store decides and performs
  no input or output: `BodyStore::open` and `SegmentScanner` say which headers
  to read, `BodyStore::write_body` says what to write and where, and
  `BodyStore::read_body` checks what was read.
  - `format`, `bytes`, `checksum`, `names`, `text`: the byte layout, file names
    and numbers as text.
  - `scan`, `recovery`: reading segments back.
  - `model`, `store`: the state of the store and its operations.
  - `disk`, `laws`, `restart`, `accounting`, `history`: what holds of the store and the
    bytes on disk together, such as that what was written is read back, that a
    restart finds every live body, also behind a write that stopped half way,
    and that a changed byte is detected. What speaks of reading a body back, or
    of opening a store again, is meant for bodies shorter than 4 GiB, and all of
    it for stores whose 64-bit ids have not run out.
- `app/` is the store on a real directory, behind a lock.
- `tests/` runs the library on files in memory.

The library takes one thing on trust: that `crc32fast::hash` computes the CRC-32
(IEEE) checksum.
