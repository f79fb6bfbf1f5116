# Directive Memory

A markdown knowledge base: notes are split into chunks by heading, indexed
in SQLite for BM25 search, and can be written back to by AI clients through
a REST API or an MCP server.

The rules of the system are a library verified with Verus (`src/`):

- `text` — the text model: whitespace, trimming, `lines`, splitting at and
  joining with line breaks, UTF-8 lengths, decimal numerals.
- `chunker` — splitting a document into heading sections and long sections
  into paragraph groups.
- `source_type` — classifying a path into a corpus.
- `search` — blanking a query, sizing the candidate pool, filtering hits,
  truncating their text.
- `writeback` — which paths may be written or read, what a write or append
  leaves in a file, and where `add_fact` puts a new bullet.
- `indexer`, `config`, `stats` — index paths and rows, pruning, index roots,
  the sorted per-source-type breakdown.
- `api`, `mcp`, `error` — request bodies, the access rule, error answers and
  the MCP tools' text answers.

`app/` is the program around it: configuration loading, SQLite, the
filesystem walk and writes, the axum server and the MCP server over stdio.
