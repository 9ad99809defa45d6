# timeline_csv

Merges timeline CSV files, orders their rows by time and drops repeated detections: of
rows that are identical apart from the `EvtxFile` column only the first stays. Rows with the
same timestamp stay in input order. If any row has a timestamp of an unknown format, all rows are
ordered by the text of their timestamps.

- `src/` is the verified library: timestamps and their keys (`timestamp`), sort keys and the
  stable sort (`order`), dropping duplicates (`dedup`), CSV records and files (`records`,
  `output`), the choice of input files (`inputs`), the sort of a table (`sorting`) and the
  merging of files (`merge`).
- `app/` reads and writes the files.
- `tests/` runs the library.

The library trusts chrono to parse timestamps, csv to parse and write CSV text and hashbrown to
hold sets. What it takes from them is stated next to each call.
