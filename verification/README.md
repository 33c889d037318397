# lore

Structure-aware retrieval over markdown corpora. Lore parses every markdown
file of a directory into a tree of headings, each with the byte range of its
section, a first-sentence summary and its outbound links, builds lookup
tables over the whole corpus (heading paths, title trigrams, backlinks, an
inverted index of Porter-stemmed tokens with per-field lengths), and answers
structured queries: tables of contents, corpus maps, document listings,
sections by heading path, neighbours, backlinks, term coverage, and
`llms.txt` exports.

## Layout

- `src/` — the library, written in Verus. Every function carries a
  contract, and the properties that span functions are stated and proved as
  laws: the shape of the heading tree (`tree_laws`, `walk_laws`), what an
  incremental update does to lookups (`updates`), that every shape of a link
  reaches a backlinks lookup for its page (`link_laws`), the `llms.txt`
  ordering (`export`), and how bursts of file changes collapse (`debounce`).
  The Porter stemmer (`stem`) is proved against a statement of its rules.
  Calls into markdown parsing, YAML frontmatter, regular expressions,
  Unicode segmentation, hashing and hash maps go through small trusted
  wrappers whose contracts name or state what those crates compute.
- `tests/` — tests of the library on concrete inputs.
- `app/` — the `lore` binary: command line, directory walking, reading and
  writing the index, BM25 ranking (floating point), the MCP server over
  Streamable HTTP, and the file watcher.
