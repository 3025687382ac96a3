# adzuki

A literate Beancount toolkit, verified with Verus: ledgers are written in
Markdown, and the Beancount lives in ```` ```beancount ```` blocks.

- `src/` is the verified library:
  - `lexer`, `parser`: the Markdown lexer (longest match at every byte) and
    the token tree `parse_markdown` builds from it;
  - `plugin`: token streams and the Markdown plugin that comments out every
    line outside the Beancount blocks;
  - `decimal`, `ledger`: amounts and the balancing rule of a transaction
    (numbers are parsed, added and printed by `rust_decimal`);
  - `validator`, `reports`: validation messages and trial balances;
  - `check`: line and column of a byte offset, for error reports.
- `tests/` runs the library on concrete inputs.
- `app/` is `bean-check`, the command-line front end, with the UniFFI record
  and the `codespan-reporting` form of the lexer's diagnostics.
