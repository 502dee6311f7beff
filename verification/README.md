# improc

An image-processing and feature-extraction library whose integer core is
verified with Verus.

## Layout

- `src/` — the verified library:
  - `image`, `raster`: interleaved 8-bit images, index arithmetic, edge-replicating padding;
  - `filter`: the box filter computed from an integral image;
  - `circle`, `fast`: the discrete circle, the FAST corner test, the stable ordering of
    corners by response, keypoint moments;
  - `descriptors`, `bits`, `feat`: bit-packed BRIEF descriptors, Hamming distances
    (also over `bitvec::BitVec`);
  - `suppress`, `matching`: non-maximum suppression and greedy one-to-one matching;
  - `ransac`: the RANSAC driver loop over a user-supplied model;
  - `json_writer`, `sfm`, `slam`: schema names and JSON framing, pipeline stages.
- `tests/` — tests of the library on concrete inputs.
- `app/` — unverified code around the library: everything that computes with
  floating point (`nalgebra` geometry, ellipse and epipolar estimation,
  structure from motion, interpolation), the `image` buffer glue, serde
  serialization and file output.
