# agentcode

A codebase context mapper: it finds the declarations of Rust, Python,
TypeScript and TSX sources, and prunes the resulting map to a token budget,
measured against the size of its JSON text.

- `src/` is the verified library.
  - `models` – symbols, files and maps, with their mathematical views.
  - `text` – white space, trimming, ASCII case, decimal digits, byte order.
  - `json` – the JSON text of a map (objects framed by the library, strings
    and numbers written by `serde_json`).
  - `ranking` – stable ordering by key, with its proofs of order.
  - `budgeter` – budgets and the pruning of a map, with its laws.
  - `indexer` – symbol extraction around tree-sitter.
  - `map` – assembling and pruning the map of a scanned project.
  - `mcp` – the decisions and answers of the JSON-RPC server.
- `app/` is the command line, the file walk, file reading and the server
  loop.
- `tests/` exercises the library.
