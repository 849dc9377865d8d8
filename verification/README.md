# rmdb

A single-file key/value store. A database is a row of fixed-size pages: page 0 names the
root of a tree and a map of free pages, leaves hold one key with its value each (in the
leaf, or in pages of their own), nodes hold pointers to their children in the order of
keys. Pages can carry SHA-256 hashes of their contents. Those of page 0, of the root and of
the map are looked at when a file is opened, those of leaves and values when they are read:
a database with a damaged value can still be written to.

Nothing that is saved is written over while a write transaction is open: nodes are
copied before they are changed, and saved pages that are given up are free only after the
transaction was committed. The map of free pages goes to new pages with every commit.
Readers see what was committed last.

- `src/` is the library, verified with Verus. It works on the image of a file in memory
  and makes no system calls. `Rmdb` makes and opens databases, `RmdbTxn` and
  `RmdbCursor` read, `RmdbWTxn` writes. Contracts speak of a database as the map from
  its keys to their values; `is_database` tells whether an image holds one;
  `src/laws.rs` holds what follows for the database as a whole.
- `tests/` runs the library.
- `app/` keeps databases in files and shares them between threads.

The only code that the proofs trust is the SHA-256 of OpenSSL (`src/hash.rs`) and the text
of operating system errors (`src/error.rs`).
