# justdb

A key-value store built as a log-structured merge tree, verified with Verus.

Writes go to a sorted table in memory. A full table is put aside and written to a sorted file, and
the files are merged level by level in the background.

## Layout

- `src/` is the verified library. It does no I/O: files come in as bytes and go out as bytes, and a
  write that needs a file first hands out what has to be written.
  - `storage` is the engine: reads, writes, scans, loading, flushing and compaction.
  - `memtable` and `sorted` are the tables in memory.
  - `sstable` is the file format, with its writer, reader and iterator.
  - `levels` keeps the open tables of each level, `names` the names of their files.
  - `bloom`, `codec`, `serialization`, `le` and `order` are what these are made of.
  - `config`, `error` and `clock` are the settings, the errors and the time.
  - `cli` is what the command line tool decides.
- `app/` is the command line tool: it reads and writes the files, and runs compaction.
- `tests/` runs the library on concrete values.

## What is proved

Each function states what it returns for every input. Beyond that, functions named `law_...` state
what holds of several operations together:

- a table that was written can be opened, gives back exactly its entries, and names the first and
  the last of their keys;
- writing the same entries twice gives the same table;
- a level that was written by a merge shows exactly the entries that the merge kept;
- a value that was put in is found, and a deleted key has none;
- flushing, merging and opening the files again change no value;
- a scan lists what a search finds, as the sequence numbers follow the order of the writes;
- a Bloom filter never misses a member.

Where such a law has conditions, it states them.

What comes from other crates or from the standard library, and is believed without proof, is marked
in the source with the function it comes from.
