# document_processor

The verified core of a desktop document processor with hybrid (full-text +
embedding) search. The library in `src/` is checked with Verus; `app/` is the
Tauri desktop program around it (SQLite storage, the local Ollama embedding
service, file export, the floating-point parts of ranking).

Modules of the library:

- `text` — UTF-8 byte offsets of character positions, slicing a string at
  character positions, Unicode whitespace and trimming.
- `highlight` — splitting full-text-search highlight output (spans delimited
  by U+0001/U+0002) into marked and unmarked segments.
- `chunking` — search chunks that are exact, trimmed slices of a document's
  text, with their byte offsets.
- `export` — sentence-packed chunks for the JSON export.
- `render` — the printable HTML page and the Markdown export of a document,
  HTML escaping, export file names, decimal formatting.
- `circuit` — the circuit breaker that guards calls to the embedding service.
- `fusion` — the rank bookkeeping of reciprocal rank fusion.
- `metadata` — decoding the metadata text stored with a document.
- `embedding` — checks on the embedding service's reply.
- `documents` — which files a folder scan imports, the id a saved document
  gets, blank queries.

Each module states its behaviour as `ensures` over spec functions, and its
laws as public proof functions (`law_*`).
