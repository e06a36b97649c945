# ui_base

Verified helpers behind a UI toolkit's text input and Markdown view.

- `span`, `span_laws`: source-backed pills in a text input. `SpanPresentation`
  builds the display text and the two offset maps; the laws show that offsets
  outside pills survive the round trip, that only valid, disjoint spans are
  shown, in order, that the caret after a pill is drawn past it, that source
  offsets never decrease along the display text, and that the display text is
  the source with each span replaced by its pill.
- `latex`, `markdown_ext`, `math_parse`, `markdown_tree`, `candidate_laws`: finding `\(...\)`
  and `\[...\]` delimiters in Markdown source, rewriting them to `$$` in a
  byte-for-byte copy, and parsing with the `markdown` crate in rounds that
  keep the re-parsed tree, fall back, or retry with fewer rewrites; no
  candidate crosses a protected node, and inline ones stay inside a
  paragraph, heading or table cell.
- `setting`, `number`, `movement`: settings search and builders, the label of
  a dropdown value, decimal-place validation of number drafts, and the
  arithmetic of caret moves.
- `sort`, `text`, `rope`: stable sorting by start offset, UTF-8 helpers, and
  the `ropey` calls.

`app/` holds what stays outside the proofs: the extension registry with its
revision counter and custom parsers, and the floating-point number field and
panel-size logic.
