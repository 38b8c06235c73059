# termx

A terminal user interface toolkit whose core is verified with Verus.

- `src/` is the library, verified by Verus; its functions carry contracts
  over geometry (`geom`), text measuring and wrapping (`text`,
  `text_renderer`), the single-line editor (`line_edit`), layout arithmetic
  (`layout`) and the layout passes over the visual tree (`layout_pass`), the
  view components (`components`), the visual tree with focus, hit testing
  and redraw tracking (`tree`), input handling (`input`), drawing plans
  (`render`) and template names (`template`).
- `tests/` runs the library on concrete values.
- `app/` holds what talks to the outside world: the clock, click handlers,
  name callbacks and the serde forms of the library's types.

`geom` follows the vector, rectangle, range and thickness arithmetic of
int-vec-2d 0.2.1, written here and proved, because that crate does not build
on a stable toolchain. The text measuring of `text` (character and text
widths, clusters of a character and the zero-width characters after it,
trimming) is this library's own model; character widths come from
unicode-width.
