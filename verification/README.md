# loam

The state machines and wire formats of a small storage system, written in Rust and
verified with Verus. A node keeps names in a namespace, bodies in a content-addressed
store, object descriptors in an index and volumes in a block allocator; a router in
front of them answers administrative requests.

## Layout

- `src/` is the library. Nothing in it reads a channel, a file or a clock: a state
  machine says what it wants done and is told what came of it. What each operation does
  is stated over a model of the state, and what holds across operations is stated and
  proved in the public lemmas.
  - `loam_*_wire`, `loam_snapshot`, `admin_frames`: formats, with their round trips.
  - `namespace_*`: the table of bindings, its snapshots, its changes and its callers.
  - `body_*`: the body store. `object_pic_body`, `block_*`: objects, volumes and logs.
  - `admin_router_*`: the router, its queues, its composed operations and its collector.
  - `gf256`, `gf_matrix`, `cauchy`, `loam_ec`: erasure coding.
  - `sha256`, `crc32`, `loam_hash`: digests.
- `tests/` runs the library on values.
- `app/` runs the state machines: it owns channels and files, and is not verified.
