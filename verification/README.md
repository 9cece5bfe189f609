# parquet_lab

The layers of a small Parquet reader, written in Verus: every function in `src/` carries a
contract that states what it returns, and Verus proves each body against it.

- `bytes`, `thrift`, `parquet_thrift`: byte cursors, varints and CRC-32; the Thrift compact
  protocol; the field tables of `parquet.thrift`.
- `format`, `metadata`, `schema`, `logical`: the trailer and footer, the typed `FileMetaData`,
  the schema tree and its leaves, logical types and what they make of a value.
- `object_store`, `reader`, `report`: a simulated object store with a request trace, the footer
  read through it, and opening a whole file held in memory.
- `pages`, `plain`, `rle`, `delta`, `decode`, `compress`: page headers, PLAIN values, the RLE /
  bit-packed hybrid, the delta and byte-stream-split encodings, and the page codecs.
- `json`: JSON values and a parser for them; a number that is not a 64-bit integer keeps its
  text. `table::read_log` and `changes::read_snapshots` read a table's log and snapshots file
  with it.
- `column`: a column chunk read page by page into level streams and `(r, d, value)` triples.
- `nested`: the fields on a leaf's path, with their levels, what a triple's levels say, and the
  records rebuilt from a column's triples.
- `stats`, `prune`, `bloom`, `page_index`, `crypto`, `layout`, `scan`, `table`, `changes`,
  `engine`, `text`, `encoding`: statistics and the skipping decisions they support, a chunk's
  Bloom filter and page index read from where its footer entry places them, row and column
  layouts, the query language's parser, and a table's compaction bookkeeping.

Floating-point values are kept as their bits. `app/` holds what works with them as numbers.
