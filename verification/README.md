# fractal_compression

Fractal image compression: an image is cut into range blocks, and each range
block is stored as a transformation (contrast and brightness) of a larger
domain block of the same image. Decompression applies the transformations
again and again until the image settles.

The library (`src/`) is verified with Verus. It holds everything that is not
floating-point work:

- `prelude`: blocks, rotations, the map of transformations, a generic
  two-dimensional array with rotation, block extraction and the windows of a
  size reduction;
- `naive`: the fixed-grid scheme's grids and its packed bit format, with the
  bit writer and reader;
- `quadtree`: the quadtree, the decisions that build it, the blocks of the
  candidate index, and its packed bit format;
- `decompression`: the per-pixel table of the in-place reconstruction and
  the pasting of transformed blocks;
- `smoothen`: which seams between blocks are softened;
- `worst_case`: the blocks of the search for badly reproduced images;
- `bitseq`: the bit-level model of packed streams.

Contrast, brightness and the largest accepted distance are carried as the
bit patterns of their `f32` values, so that they are stored and restored
exactly.

The program (`app/`) reads and writes images and files, and does the
floating-point work: averages, distances, the least-squares fit of contrast
and brightness, the nearest-neighbour search among domain blocks, the
iteration of decompression and the colour conversions.
