# moonlight

A small retained-mode GUI layout engine. A tree of rectangular elements is
measured, sized along and across each element's direction, placed, and turned
into rectangles to draw.

- `src/` is the verified library.
  - `element.rs`: the element tree and the layout passes (text measures,
    fit sizes, final sizes with growing and shrinking, positions, rectangles,
    text placements, click lookup).
  - `model.rs`: the mathematical model of a tree (`ElementModel`) and the spec
    functions that say what each pass does to it.
  - `laws.rs`: properties of the passes, proved over the model.
  - `internal_loop.rs`: the event loop's decisions and the layout run that an
    update asks for.
  - `renderer.rs`: the rectangles handed to drawing.
- `tests/` runs the library on concrete trees.
- `app/` is the window, the GPU renderer, text drawing and the demo program.
