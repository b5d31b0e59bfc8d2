# p4_analyzer

A language server for the P4 language, with its core verified by Verus.

## Layout

- `src/` — the verified library.
  - `text`, `base_abstractions`, `text_document`: characters and UTF-8 sizes, spans,
    diagnostics, protocol positions and edits.
  - `lexer`, `preprocessor` (with `parser`, `evaluate`, `state`): tokens of P4 source text,
    and the C-style preprocessor (`#include`, `#define`, conditionals) over them.
  - `lsp_position_struct`, `lsp_file`: line tables of a document, conversions between byte
    offsets and protocol positions, and incremental edits.
  - `analyzer`: the files of a workspace, their lexing, preprocessing and diagnostics.
  - `parser`: an incremental packrat parser for parsing-expression grammars, whose results are
    specified by the grammar's semantics; `ast`: syntax trees over its results.
  - `json_rpc`, `lsp_protocol`, `requests`: message framing, the server lifecycle state machine,
    and requests sent to the client.
  - `capabilities`, `features`, `workspace`, `futures_extensions`, `trace`, `extensions`: the
    server's answers and decisions (capabilities, hover, completion, diagnostics, document
    changes, workspaces and file states, tracing).
- `tests/`: tests of the library.
- `app/`: a language server over standard input and output that drives the library.
