# relief_core

A depth map in, a watertight bas-relief out, with the geometry proved in Verus.

A grayscale depth map is a height field: every pixel becomes a vertex, every
quad of pixels two triangles, and a frame with a back plate closes the sheet
into a solid that a slicer takes as it is.

## What is proved

* **Closed.** Every edge of the solid is shared by exactly two triangles, once in
  each direction — for the full grid and for every simplification of it — and
  every vertex is a corner of one (`mesh::law_watertight`,
  `law_every_vertex_is_used`).
* **Simplified within bounds.** The blocks of a simplified surface cover each
  cell of the grid once, the triangles that are put down for them never lie
  farther from a sample than the tolerance, and a looser tolerance never costs
  triangles (`decimate::law_every_cell_once`,
  `law_error_bounded`, `law_looser_is_cheaper`).
* **Cut up without loss.** The preview's chunks cover every triangle of the
  surface once, agree along their seams and keep the triangle count
  (`tiles::law_tiles_cover_once`, `law_seams_agree`,
  `law_chunking_keeps_the_count`).
* **Written as promised.** An STL or PLY file has the size that was estimated for
  it, and its facets read back as the solid's own (`export::law_estimate_is_exact`,
  `stl::law_facets_read_back`, `ply::law_faces_read_back`); an OBJ file is lines
  of vertices and then of triangles (`obj::law_lines`). Files of any size pass
  through a small buffer: the chunks of an `export::stream::Stream` make up the
  file, neither vertices nor triangles are ever held, and no chunk grows with the
  area of the grid (`stream::law_chunks_are_small`).

## Numbers

Verus does not reason about floating point, so numbers are held by their bit
patterns (`number::Real`, `number::Double`). Comparing, clamping, negating and
rounding to whole numbers are exact and are done, and proved, on the bits. The
rounded operations are asked of a function that the caller hands in: contracts
say which operations are made, on what and in which order, and `app/arithmetic.rs`
makes them with the machine's own.

## Layout

| Where | What |
| --- | --- |
| `src/number.rs`, `bits.rs`, `vector.rs`, `text.rs` | numbers, vectors, text |
| `src/params.rs`, `depth.rs`, `sample.rs` | settings, depth maps and their conditioning, the built-in terrain |
| `src/square.rs`, `grid.rs`, `quadtree.rs`, `refine.rs`, `triangle.rs`, `fit.rs`, `patch.rs`, `count.rs`, `numbering.rs`, `decimate.rs`, `plateau.rs` | simplification |
| `src/full.rs`, `topology.rs`, `mesh.rs`, `listing.rs`, `check.rs`, `tiles.rs` | the solid, its triangles, its inspection, its preview |
| `src/export.rs`, `src/export/`, `stats.rs` | files and measurements |
| `src/state.rs`, `rebuild.rs`, `panel.rs`, `view.rs`, `platform.rs`, `cli.rs` | what the applications decide and say |
| `app/` | the command line and the window: arguments, files, drawing, arithmetic |
| `tests/` | tests |

Images are decoded, resized and encoded by the `image` crate; the functions that
call it say what is relied on.
