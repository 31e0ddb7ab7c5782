# dryer-core

Finds candidate duplicate Rust and TypeScript code by comparing normalized
syntax structure instead of raw text, and proves with Verus what it computes.

- `src/` is the verified library. Files are parsed with tree-sitter (trusted, like
  glob matching and the final JSON serialization), syntax trees are copied into plain
  values, and everything after that is verified: candidate extraction,
  normalization, fingerprints, the inverted-index comparison, ranking, file
  selection, the text report and the SARIF document.
- `app/` is the command-line tool: argument parsing, `dryer.toml` loading,
  directory walking, reading files, float formatting of scores, and JSON
  output.
- `tests/` runs the library on small Rust and TypeScript sources.

Module map: `language` (detection by extension), `syntax` and `parse` (syntax
trees), `normalize` and `fingerprints`, `candidates`, `matcher` (comparison and
the report), `ranking` (report order), `paths` and `files` (file selection),
`config`, `output`, `json`, and the helpers `text`, `order` and `sorted`.

Haskell (`.hs`, `.lhs`) and Daml (`.daml`) files are detected and can be
selected with `--language`, but no tree-sitter grammar for them is among this
project's dependencies: scanning such a file fails with a parser-language
error.
