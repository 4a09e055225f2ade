# touchhle

A verified reader for NIBArchive files (the binary nib format of iOS 3.2
and later), which turns them into the object graph of an NSKeyedArchiver
archive, together with the handle tables behind the emulator's SQLite3
bindings.

Layout:

- `src/bytes.rs`: little-endian integers and the NIBArchive varint.
- `src/text.rs`: turning stored bytes into strings.
- `src/nib_format.rs`: the header and the four tables of a NIBArchive, as
  specifications and as parsers proved against them.
- `src/plist_model.rs`: property-list values and an insertion-ordered
  dictionary with the insertion semantics of a plist dictionary.
- `src/keyed_archive.rs`: the conversion from the tables to `$objects` and
  `$top`, specified entry by entry.
- `src/nib_archive.rs`: reading a whole file, and checking that a file can
  be read.
- `src/archive_laws.rs`: properties of the archives the conversion builds.
- `src/sqlite_state.rs`: the SQLite3 handle tables.
- `app/lib.rs`: conversion of the archive into `plist` values, including
  the floating-point parts (reals and geometry strings), and the entry
  point that takes and gives what the emulator uses.
