# kubelog

An append-only log of records, kept in a directory of segment files and served
over TCP, with its logic verified by Verus.

Every record has an offset, a checksum and a place in one of the segments. A
checkpoint file marks the durable end of the log. After a crash, the segment
files are scanned again: whole records behind the checkpoint are kept, a record
that was not written to its end is cut off, and anything else that does not
belong is refused.

## Layout

- `src/` is the library. It never touches a file, a socket or a thread: it says
  what to do next, is told what came of it, and is verified for every answer.
  - `format` is the byte formats of records, segment headers and checkpoints,
    on top of `bytes`, `text` and `checksum`.
  - `storage` is the store: `appending`, `paging` and `recovery` lead through
    an append, a read and the opening of a directory.
  - `engine` decides which requests are taken on, and whether the store can
    still be trusted.
  - `server` reads requests and spells replies; `command` reads the program's
    arguments.
  - `history`, `replay`, `durability`, `soundness`, `reading`, `acknowledged`,
    `naming` and `server::conversation` state and prove what holds of the
    library as a whole: that what was acknowledged is read back after a
    restart, that an interrupted append loses nothing, that damage is refused,
    and that replies say what happened.
- `app/` is the program: files, threads and sockets around the library.
- `tests/` runs the library against directories in memory.

The checksum comes from the `crc32fast` crate. What the proofs take for granted
about it is in `src/checksum.rs`.
