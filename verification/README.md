# rust_formatter

An opinionated Rust code formatter that respects your line breaks, written in Verus.

The formatter runs a pipeline of passes over the source text (derive sorting, import
hoisting and grouping, whitespace and indentation from rust-analyzer's concrete syntax
tree, method-chain reformatting, a line-length fixpoint loop, brace collapsing, section
headers, blank lines, doc-comment reflow and the trailing newline). Each pass works on a
`Vec<char>` and is proved to compute a specification written over `Seq<char>`; the
pipeline as a whole is specified by `formatter::formatted`.

Layout:

- `src/text.rs` — characters, lines, trimming, splitting, string order, with lemmas.
- `src/syntax/` — the syntax tree as plain values (built from the parser's walk and
  checked), navigation, spacing rules, indentation and string re-indentation.
- `src/pass/` — one module per pass, each with its specification, implementation and laws.
- `src/formatter.rs` — the pipeline and its laws.
- `app/main.rs` — the command line: stdin or files, `--write`, `--check`.

The parser (`ra_ap_syntax`) and the Markdown renderer (`comrak`) are called through two
small trusted wrappers whose results are named, not restated.
