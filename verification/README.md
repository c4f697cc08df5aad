# art-junk

A stylus-first drawing program. Its logic is a library verified with Verus; around it stands
a thin program in ordinary Rust.

- `src/` is the library: the document with its layers and history, the translation of pointer
  and tablet events, the view of the page, the controls, the shape of strokes, and how they
  are composited. Every function states what it returns or changes, and the `*_laws` modules
  state what holds of several of them together: what undo restores, in which order stylus
  events come, where a point of the page is found again after zooming, that a stroke of
  moderate size has finite vertices only, and that blue and yellow mix to green.
- `app/` is the program: the window, the graphics device, the controls on the screen, native
  tablet backends, and stored documents.
- `tests/` runs the library, against the machine's own floating point where numbers matter.

## Numbers

The library holds floating-point numbers as their bit patterns (`Float32`, `Float64`) and
computes on them with whole numbers. Sums, products, quotients, square roots and conversions
are correctly rounded by contract and by proof. What it does not compute (powers, cosines, the
length of a curve, conversions between perceptual color spaces) is computed by the program and
handed in.

## What is trusted

- `String::push` appends one character.
- `bytemuck::cast_slice` shows words as their bytes, in the byte order of the machine.
