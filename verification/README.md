# next-code-frame

Renders code frames: the lines around an error location in a source text,
with a gutter of line numbers, `>` on the error lines, `^` markers under the
error columns, horizontal truncation of long lines and optional ANSI syntax
highlighting. The library is written in Verus: every function carries a
contract, which Verus proves, except the few wrappers around the `regex`
crate and `String::from_utf8`, whose contracts are trusted (see
`src/patterns.rs` and `src/text.rs`).

## Layout

- `src/lines.rs`: line starts of a text, line lookup and line bounds.
- `src/patterns.rs`: the `regex` crate behind trusted wrappers, with the
  results of its searches named as functions of pattern, text and start.
- `src/scanner.rs`: the tokenizer (token regex, regex literals, template
  literals) as a step function per token and a scan over the text.
- `src/highlight.rs`: style markers, their order, grouping by line,
  adjustment for truncation and rendering with a colour scheme.
- `src/frame.rs`: locations, options, truncation, marker placement and the
  frame itself (`render_code_frame`, `check_render_fits`).
- `src/ansi.rs`, `src/colors.rs`, `src/shape.rs`: properties of rendered
  text: removing escape sequences gives back the plain text and the plain
  frame, highlighting without colour leaves a frame unchanged, and a frame
  never ends with a newline of its own.
- `src/ranges.rs`: the highlights of a range of lines against those of the
  whole text.
- `src/pairs.rs`: the tokenizer's markers come in start/end pairs.
- `src/text.rs`: byte-level helpers for building valid UTF-8 output.
- `app/lib.rs`: the API with serde-deserializable options, `anyhow` errors
  and the terminal width taken from the environment.
- `tests/`: the tests of the highlighter and of the frame renderer.
