# renderer

The verified core of a small path tracer.

`src/` is the library, checked by Verus:

- `morton`: 32- and 64-bit Morton codes (bit dilation and interleaving), with the laws that
  the code is injective on grid cells, monotone along every axis and bounded.
- `larp`: the bounding volume hierarchy. `Bvh` is built over primitive indices from two
  callbacks (the bounding volume of a range of primitives, and how a range splits), keeps a
  pre-order node array over a permutation of the primitive indices, and is walked depth
  first with a bounding-volume test; `partition_range` is the two-cursor partition used to
  split a node; `left_counts` / `right_counts` / `bucket_slot` are the bucket bookkeeping of
  the surface area heuristic. `BvhNode` and `LbvhNode` are the node types.
- `scene`: the object, light and material lists of a scene.
- `texture`: texel addressing of an RGB image.
- `geometry::mesh`: cutting an OBJ index list into triangles and mapping OBJ materials to
  scene materials.
- `material`, `renderer`: `MaterialIndex` and the rendering configuration trait.

`app/` holds the rest of the path tracer in plain Rust: vectors, rays, bounding boxes and
their slab test, ray-primitive intersection, materials and textures, shading, OBJ and image
loading, and parallel rendering. It calls the library for everything above.

`tests/` runs the library on concrete values.
