# koikatsu_dedupe

A de-duplicator and organizer for Koikatsu character cards (PNG images with
a character block appended after the image), written in Verus.

- `src/` is the verified library:
  - `msgpack` — a decode-only MessagePack reader, proved to follow a
    byte-level definition of the format, errors included;
  - `card` — reading a card's marker, block table and parameter block from
    the bytes of a card file;
  - `dedup` — where a card's character block starts, the two-tier hashes
    (xxHash64 through `twox-hash`), and the bookkeeping around the store's
    rows (pruning, limits, deletions: a full path inside the scanned folder
    names exactly that file, any other name only a file directly in it);
  - `organize` — planning where each card belongs (`Game/Sex` or
    `Game/CardType`), resolving name collisions by content, the voice check
    against a game install, walking directories, and the action-by-action
    carrying out of a move;
  - `cli` — reading the `kdedupe` command line;
  - `text`, `paths` — byte and text helpers (comparison, hex and decimal
    digits) and the few std string and path operations used, each behind a
    function with a stated contract.
- `app/` is the `kdedupe` program: the SQLite store (`rusqlite`), the file
  system, and JSON output. Its decisions come from the library, except the
  store's SQL queries, which select the files to hash and group, order and
  limit the duplicate groups.
- `tests/` runs the library on synthesised cards and hand-written snapshots.
