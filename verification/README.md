# crustdb_core

The storage engine of CrustDB: typed models with unique and indexed fields,
kept as append-only table logs, a schema file, a storage manifest and one
B-tree index file per unique field.

`src/` is the library, verified with Verus. Every file format is a pair of
functions on bytes (an encoder and a decoder) with contracts stated over
`Seq<u8>`, and the engine's decisions (validation, uniqueness, which row a
filter selects, what a write changes) are functions from state to result.

- `storage/`: records, the table operation log, the schema file, the manifest.
- `index/`: index keys, the in-memory indexes, the B-tree index file, the
  index manifest, and reading or rebuilding the indexes of every model. An
  exact lookup walks the tree one page at a time (`start_lookup`, then
  `lookup_step` for each page it asks for), so the program reads from disk
  only the header page and one page per level.
- `engine.rs`: tables and the engine: opening a table from its file,
  finding, inserting, updating and deleting rows. A table is made only by
  opening its file and changed only through the engine's writes, and its
  well-formedness carries what every table holds: its next row id follows the
  largest id it holds, its indexes agree with its live rows, and the
  operations its file holds replay to it.

Laws proved in `src/` include: a record, a schema file and an index file read
back what was written; an index lookup after a save finds the saved row; a
table log replays an appended insert, update or delete; a find after an
insert, update or delete gives what the write left; every write keeps the
indexes in agreement with the live rows; an insert is refused for a
duplicate exactly when a live row holds the value; row ids follow the largest
id held and are never reused; the schema file saved on registering loads back
each model under its name; and a table, or the whole engine, opened again
from the logs it wrote is what it was before.

`app/` holds what does I/O: the directory-backed `Engine` that reads and
writes the files in the order that keeps indexes recoverable, serde copies of
the schema types, and the Python binding.
