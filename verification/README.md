# bye_nanoflann

A kd-tree library for nearest-neighbour search over points with integer
coordinates, verified with Verus.

- `src/` is the verified library: result sets (`sets`), the byte format for
  saving and loading trees (`file`), the pooled allocator (`memalloc`),
  distance metrics (`metric`), point clouds (`pointcloud`) and the static
  kd-tree itself (`kdtree`). Distances are squared and integral.
- `tests/` runs the library on concrete inputs.
- `app/` holds what stays outside the verified part: file and stream I/O,
  and the floating-point metric and point generators.
