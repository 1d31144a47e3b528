# tomlplus-syntax

The TOML+ language core — TOML plus block dictionaries (`#{ … }#`),
`@annotations` and `$variables` — with its behaviour stated in Verus
contracts and proved.

## Layout

* `src/` — the verified library.
  * `text`, `span`, `numeric`, `scan` — characters, byte offsets, line
    index, number text, top-level splitting.
  * `lexer`, `value_parser`, `annotation`, `parser` — from source text to a
    `Document`; each has a specification (`tokens_of`, `sp_parse`,
    `sp_annotation`, `sp_document`) that the code is proved to meet.
  * `validator`, `dumper` — annotation checks and the pretty-printer.
  * `roundtrip`, `reparse`, `reannotate` — what the dumper writes, read
    back: values, whole documents (configuration, variables and
    annotations) and annotation lines.
  * `display`, `editor`, `hover`, `assist`, `complete`, `colors` — editor
    features: semantic tokens, hovers, inlay hints, go-to-definition,
    outline, completion and colours.
  * `query`, `report` — questions a host asks of a document, and how
    diagnostics are reported.
  * `host` — what the library asks its host: floating point (as IEEE-754
    bits), the environment, the builtin values.
* `tests/` — scenario tests.
* `app/` — the `tomlpr` command line, the language server (`tomlpr lsp`)
  and the C ABI, over the library.
