# sst

Streaming of point clouds by cells: `sstfin` reads a point cloud three times
(bounds, per-cell counts, then the points again) and writes a stream in which
each cell of a square virtual grid is announced complete right after its last
point. `sstdel` reads such a stream and drives a streaming Delaunay
triangulation with it; the triangulation itself is not part of these sources,
so `app/sstdel.rs` reads the stream for any implementation of its
`Triangulation` trait, and no program runs it.

- `src/` is the verified library:
  - `text`: whitespace splitting, `usize` parsing and decimal writing;
  - `stream`: what each line of the stream announces, its integer fields, and
    the writing of integer lines (which read back as written);
  - `grid`: the per-cell point counts of the first pass;
  - `sprinkle`: the points sent first in the stream, chosen at random;
  - `finalise`: the second pass, which completes each cell on its last point.
- `app/` holds the command-line program, the file reading and writing, and the
  floating-point computations (coordinates, bounding boxes, cell indices).
