# layout_rs

Sheet planning for print runs: given products (size and quantity) and a press sheet,
choose how many copies of each product go on one sheet so that the fewest sheets are
printed, then lay those copies out on the sheet as a two-stage guillotine packing, and
draw the sheet as SVG.

The library in `src/` is verified with Verus:

- `proportion` — the gcd-reduced ratio of the targets, per-sheet counts `k * p`, sheets
  needed `P(k)`, overproduction, and the enumeration of candidate count plans.
- `search` — the depth-first and greedy two-stage searches (columns or rows), as spec
  functions and their executable versions.
- `guillotine` — layout checks, item orderings, and `pack_multi_stage`, which collects
  the distinct valid packings over several orderings, best utilization first.
- `two_stage` — proofs that the packings found lie on the sheet as two-stage layouts,
  place the items one for one and cover exactly their area, and that the row search
  mirrors the column search.
- `lane_split` — proofs that the depth-first search, and with it the packer and the
  solver, finds a packing whenever the items split into lanes that fit the sheet.
- `layout_split` — proofs that every two-stage layout that places the items gives such
  a split, so that the packer and the solver find a layout whenever one exists (for up
  to 12 instances, where the search is depth-first).
- `layout_search` — the solver: fewest sheets, then best utilization, then least
  overproduction.
- `request` — the checks on a request and the per-sheet summary of an answer.
- `render` — the summary line and the SVG document of one sheet.
- `sorting`, `text` — stable insertion order and character sequences used by the specs.

`app/` holds the WebAssembly/JSON surface and everything that works with floating point
(utilization as a ratio, its percentage text, the float area bound, the stroke width).
