# leafdb

The storage and SQL engine of a lightweight, browser-first relational
database, with its behaviour stated in contracts and proved by Verus.

- `src/` — the verified library: byte encodings (`bytes`, `value`, `record`),
  the page store (`storage`), slotted pages (`page`), table heaps (`heap`),
  the catalog page (`catalog`), the SQL tokenizer, AST and parser (`sql`),
  the statement executor (`executor`) and the `Database` facade (`database`).
- `tests/` — the engine's end-to-end tests and tests of each building block.
- `app/` — the WebAssembly bindings (`LeafDb`) that hand JavaScript values to
  the library and back.

The main facts proved about the engine:

- every statement keeps the table heaps sound (well-formed pages, chains that
  end, rows that decode, no page shared by two tables) and keeps primary keys
  set and pairwise different;
- what each statement returns and how it changes the tables is stated over
  the rows a scan reads (`executor::executed`);
- an exported image, taken while the catalog page is up to date (as it is
  after creating a database and after every statement that changed rows or
  tables), opens again with the same tables and bytes; opening refuses any
  image whose catalog or heaps are unsound, and a `SELECT` never changes the
  image;
- `SELECT *` after a successful `INSERT` returns the earlier rows followed by
  the inserted ones;
- `DELETE` keeps the rows that do not pass its filter, in their order, and a
  `SELECT` with the same filter afterwards finds nothing;
- `UPDATE` keeps the rows that do not pass its filter and never loses a row:
  a storage error comes only from a row whose new cell fits neither in place
  nor in the free space of its page at its turn, and that row stays as it
  was; once it succeeds, every row it changed is
  in the table with its new values, on its page. Rows whose cell keeps its
  length are rewritten in place (when all of them are, the table afterwards is
  the scanned rows with the new values, in order), and on a keyed table it
  fails with a constraint error exactly when the one row it changes would get
  a key that is missing or already taken;
- the messages of lexical errors, of trailing tokens, of records too large
  for a page, of images that are not whole pages, of unknown type tags, of a
  bad catalog header and of a duplicate table are stated; elsewhere only the
  kind of an error is.
