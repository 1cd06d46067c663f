# fastregex

Indexed regex search over a workspace: a commit-anchored index of trigram and
sparse n-gram hashes (`postings.bin` + `lookup.bin`), a query planner that
turns the literals a pattern requires into hashes, candidate selection from
posting lists and an overlay of changed files, and a final PCRE2 match on the
candidates only.

The library under `src/` is verified with Verus:

- `index`, `builder`, `roundtrip`: the binary index format, its encoder and
  checked decoder, and the proof that a built index loads back as built.
- `sparse`, `planner`: bigram weights, sparse n-grams, and the planner that
  extracts required literals from a pattern (or plans a literal from its own
  bytes), falling back on every document where it cannot read a pattern.
- `candidates`, `selection`, `completeness`: posting-list intersection and
  union, candidate selection with the overlay, and the proofs that no
  document holding a plan's literals is left out.
- `search`, `scanning`: line/column records, literal and regex scans, and the
  scan of several texts up to the result cap.
- `overlay`, `hotcache`, `filters`, `paths`, `engine`, `text`, `hashing`,
  `error`: the overlay store, the hot-file cache, glob filters, path helpers,
  request decisions, and small text and hashing helpers.
- `corpus`: the synthetic corpus that the benchmark writes and searches,
  its marker, and the match count of `rg --json` output.
- `regexcache`: the cache of compiled regexes, most recently used last.

`app/` holds the MCP server (JSON-RPC over stdio), the engine around the
library (files, `git`, locks, threads) and the benchmark runner
(`fastregex bench`), which writes the library's corpus to disk and times
searches.
