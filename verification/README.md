# gutenindex

An inverted index over Project Gutenberg plain-text books, with its core
proved correct in Verus.

- `src/` is the verified library: reading a book's header, splitting its text
  into lowercase words with their positions, merging documents into the
  global index, the binary index format (the bytes written and what the
  reader gives back of them), word lookup by binary search, the statistics
  that ranking needs, the HTML pages of the web front end, reading a book
  out of its corpus archive, and the choice of books to index.
- `app/` is the program around it: the command line, file and archive I/O,
  the HTTP server, JSON output, and BM25 scoring, which works in floating
  point.
- `tests/` exercises the library on concrete inputs.

The index is a directory of files: `vocab` (header, vocabulary entries and
the words), posting chunks `0` to `7`, `doclen` (document lengths by id) and
`meta` (titles by id). All integers are little-endian.
