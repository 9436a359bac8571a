# code_for_next_week_in_rust

The ray tracer of *Ray Tracing: The Next Week*, with its geometry, hierarchy,
noise, texture and GPU-scene logic verified with Verus.

## Layout

- `src/` — the verified library, in fixed point (one world unit is 20000
  integer units):
  - `interval`, `vec3`, `ray`, `aabb`: intervals, vectors, rays and boxes,
    with an exact slab test for a ray against a box;
  - `bvh`: the bounding-volume hierarchy over boxed objects;
  - `perlin`: Perlin noise and turbulence;
  - `texture`: solid colours, checker cells, image textures (decoded from the
    file's bytes);
  - `gpu::scene`: the scene builder for the GPU renderer and its flattened
    hierarchy; `gpu::ppm`: the pixel order of the PPM output.
- `tests/` — tests of the library.
- `app/` — the renderer around the library: floating-point geometry and
  materials, cameras, scenes, the CUDA runtime, and file and terminal I/O.

## Running it

Verify with Verus; the program in `app/` writes a PPM image to standard
output (the GPU path reads its kernel from the file named by `PTX_PATH`).
