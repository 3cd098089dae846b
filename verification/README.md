# kurbo_se

Stroke alignment (inside / center / outside), independent start and end
caps, dash caps and dashed aligned strokes, produced as fill outlines on
top of kurbo.

## Layout

- `src/` — the verified library (Verus). It holds the discrete decisions
  of the stroker, each with a contract and the laws that relate them:
  - `style` — the style enums (`StrokeAlignment`, `StrokeSide`, `Cap`, `Join`);
  - `orient` — which geometric side a band goes on, hole-aware;
  - `path` — path-element structure: canonical form, subpaths, degenerate
    elements, reversal and splicing of runs;
  - `lobes` — decomposing a self-intersecting subpath into lobes;
  - `join` — what a corner emits on each side of a band;
  - `dash` — dash pattern sanitizing, dash caps and dots;
  - `plan` — per-subpath planning of the region construction;
  - `stitch` — walking surviving pieces back into loops.
- `tests/` — tests of the library on concrete values.
- `app/` — the floating-point geometry (offsetting, intersection search,
  winding probes, masking) around the library, the public stroking API on
  kurbo types, and the wasm sandbox surface.
