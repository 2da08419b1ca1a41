# sch_pdf_compare

Compares two revisions of an electronics schematic, sheet by sheet: what each
revision draws, what both draw, and what their words say differently.

`src/` is the comparison itself, with its contracts and laws proved by Verus:

- `ink`, `dilate`, `compose`: ink from pixels, the tolerance as a dilation,
  and the overlay (agreed ink neutral, each side's leftover in its colour,
  excluded regions grey and edged).
- `changes`: regions of unmatched ink, clustered on a grid of cells.
- `pairing`, `signature`, `matching`: sheets paired by an offset, or by what is
  written on them with a Needleman-Wunsch alignment of token sets.
- `words`: which words were changed, moved, added or removed.
- `session`, `scan`, `tile`, `report`: the model of an open comparison, a
  sheet's scan in page space, a tile for the screen, and the Markdown report.
- `sweep`, `settings`, `samples`, `abi`, `render`, `text`: the sweep's status
  and the regions it offers to exclude, the remembered settings, the sample
  manifest, the values the C shell exchanges, renderer errors, and text output.
- `pdf`: the bytes of a small test document, with its cross-reference table.

Page space is in thousandths of a point; similarity is in millionths.

`app/` is the plumbing that cannot be verified: MuPDF rendering and text
extraction, the settings file, the background thread and its wakeup handle,
the C ABI, and the fixture sheets' drawing text (floating-point coordinates).
