# puzzle

Solves a jigsaw puzzle given its pieces (image files) and the picture of the
whole. The picture is covered by a grid of windows the size of the most common
piece (the last column and row take what is left); each window is compared with
every piece by the sum of the absolute differences of the red, green and blue
channels, and the best match takes the window's grid position. Pieces left
without a position are then matched with the positions left without a piece.
Finally the pieces of every row are stitched side by side, ordered by column,
and the rows are stitched top to bottom. A companion command cuts a picture into
a grid of pieces.

Layout:

- `src/` — the library, verified with Verus: rasters, difference metrics,
  stitching, piece placement, assembly and cutting, with their contracts and
  the laws relating them (for instance, that cutting an image and assembling
  the pieces at their grid positions gives the image back).
- `app/` — the command-line program: reading folders and image files through
  the `image` crate, printing, saving, and the edge comparisons in the HSL and
  CIELAB colour spaces, which compute in floating point.
- `tests/` — tests of the library.
