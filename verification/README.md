# difft_style

Colors, styles and line wrapping for a side-by-side diff shown in a
terminal, written in Verus with every function proved against its contract.

- `src/text.rs`: UTF-8 text as characters with byte offsets; tabs, lines.
- `src/width.rs`: display widths (via `unicode-width`) and splitting a line
  into parts that fit a width.
- `src/paint.rs`: styles, and painting text with them (via `owo-colors`).
- `src/model.rs`: positions, match kinds, file formats, RGB colors.
- `src/color.rs`: the styles of changed and unchanged content, the syntax
  palette, and merging adjacent spans.
- `src/groups.rs`, `src/sort.rs`: items grouped by line; stable sorting by
  span.
- `src/whitespace.rs`: backgrounds for white space inside changed regions,
  and the style of every matched position.
- `src/render.rs`: painting spans onto lines and wrapping them.
- `src/header.rs`: hunk headers, line numbers, warnings and errors.
- `app/lib.rs`: printing to stderr, and conversions to and from the
  positions of `line-numbers`.
