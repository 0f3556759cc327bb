# vger (faux bold index logic)

The verified part of a faux bold for glyph outlines:

- `src/contour.rs`: how a path's verbs split its points into contours
  (`contours`), with the proof that the contours partition the points.
- `src/winding.rs`: the edges over which the outline's winding is summed
  (`contour_edges`), each contour closed on its own first point, with the
  proof that no edge bridges two contours.
- `src/walk.rs`: `ContourWalk`, the walk around one contour's corners that
  decides which points each corner moves, with the proofs that it ends and
  that it moves every point exactly once or none.

`app/lib.rs` holds the floating-point geometry and the calls into swash
(rendering, outline scaling, the winding's signed area and each corner's
shift), driven by the verified pieces.
