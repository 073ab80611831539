# rust_raytracer

A small ray tracer whose integer core is verified with Verus.

- `src/` is the verified library:
  - `lib.rs`: the `RGB` colour and its channel-wise addition;
  - `material.rs`: materials whose parameters are plain colours;
  - `display.rs`: RGB byte buffers, PNG encoding (through the `image`
    crate), the running average of rendered frames, packing into 32-bit
    pixels, letterboxed nearest-neighbour drawing into a window buffer, and
    the frame-rate limit (at most twenty frames a second);
  - `mesh.rs`: the breadth-first construction of the bounding volume
    hierarchy over a triangle mesh (which triangles each bound holds, how
    bounds link up, the split candidates drawn with `rand`), step by step or
    whole (`build_bvh`, given the split decision), with its tree, partition,
    child-order, size and termination properties.
- `app/` is the program around it: geometry, camera, materials, scene and
  rendering (all floating point), STL loading, the window and the output file.
- `tests/` exercises the library on concrete values.
