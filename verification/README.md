# noter

The verified core of Noter, a plain-text and Markdown editor that never
loses or silently rewrites a user's bytes.

- `src/` is the library, written in Verus. Every function states its
  behaviour in `requires` / `ensures` and is proved: edit transactions and
  their exact inverses (with the undo and redo laws), the document and its
  byte-exact serialization, the external-change conflict reducer, the
  decisions of the stable file read, the CR/CRLF display projection, the
  line-ending profile and the line endings written for inserted text, the
  save-destination decisions, Replace All, and the bounded input handling of
  the editors (byte ceilings, the input-method lifecycle, the bounded buffers
  over plain and projected text).
- `tests/` runs the library on concrete values.
- `app/` is a small command-line front end: it performs the file I/O that
  the library decides about and prints what the editor would show.

The library calls `ropey` for its text buffer and `blake3` for content
fingerprints. Every trusted declaration carries a doc comment saying what it
claims: the rope wrappers in `src/rope_text.rs`; the BLAKE3 wrappers in
`src/observation.rs`; `str::from_utf8`, `Duration::ZERO` and `PathBuf` in
`src/document.rs`; `Vec::try_reserve_exact` in `src/edit.rs`;
`String::try_reserve_exact` in `src/presentation.rs`; and `str::len` in
`src/utf8_text.rs`.
