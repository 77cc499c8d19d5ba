# pond_core

A verified library for a versioned store of collections: the columnar blob
format, the rows in it, and the rules by which rows are written, merged, read,
searched and cached. The functions of `src/` are proved by Verus against their
contracts, but for the wrappers round calls into other crates, whose contracts
are taken as they stand.

## Layout

- Numbers and bytes: `numeral`, `bytes`, `bitpack`, `float`, `seqs`.
- The blob format: `constants`, `types`, `parser`, `decode`, `blob`, `encode`,
  `assemble`, `typed`, `handle`; `round_trip` proves that what was encoded reads
  back.
- Texts and values: `text`, `intern`, `json`, `media`, `values`, `text_map`.
- Rows: `rows`, `infer`, `file_rows`, `collection`, `query`, `table`, `shown`,
  `write`;
  `written` proves that rows that were written read back.
- Changes: `crdt`, `merge`, `merge_text`, `plan`, `change`, `policy`, `upload`.
- Conditions and statements: `predicate`, `where_clause`, `sql_text`, `sql`, `udf`.
- Searching: `search`, `ranking`, `index`.
- Layers of meaning: `layer`.
- The command line: `names`, `repl`, `report`.
- The cache in front of a remote store: `tiers`, `cache`.

`app/` is the program around the library: arguments, files, the network, the
storage and SQL engines, and arithmetic on floats.

## Conventions

- A float is held as its 64 bits. Where a text has to be read as a float, or a
  float written as one, the caller supplies the reading in a table.
- A condition that the SQL engine evaluates comes in as a list of verdicts, one
  for each row.
- What an outside crate computes is stated by the wrapper that calls it, with the
  outside function's name above it; all else is proved.
