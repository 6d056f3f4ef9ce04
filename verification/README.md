# wilupgu

A backend-independent tensor and dispatch library for GPU compute. The
logic that decides what runs where carries contracts that Verus proves;
what a user's backend answers (its size check, a buffer's identity and
owner, the device it runs on) is taken as the backend gives it, and the
contracts say what is done with each answer.

## Layout

- `src/` — the verified library.
  - `backend.rs`: binding modes, element types, the layout check of a
    dispatch, and the read-only storage entries of a bind-group layout.
  - `traits.rs`: the backend traits, binding roles and their check, tensor
    specs, and `Graph`: validation, ownership and write-hazard checks at
    build time, and the dispatch plan that capture rewrites.
  - `placement.rs`: which devices each node of a mesh runs on.
  - `pool.rs`: power-of-two size classes and the capped free-buffer pool.
  - `resolver.rs`: a value filled in once, later, through a one-shot
    resolver.
  - `backends/cpu.rs`: the index logic of the data-moving CPU kernels and
    their meta decoding; `backends/cuda.rs`: capture life cycle, generic
    dispatch planning, launch geometry and cuBLAS shapes;
    `backends/wgpu.rs`: the in-flight submission throttle.
  - `id.rs`, `mesh.rs`, `shader.rs`, `tensor.rs`, `text.rs`, `nn/`:
    identities, parallelism kinds, the CPU binding type, read-back
    truncation, how numbers are written in messages, and the built-in
    shader names.
- `app/` — the device backends (wgpu, CUDA, CPU, rayon), the `Shader`
  statics with their per-backend sources, CPU functions and custom CUDA
  launches, the floating-point reference kernels, `ComputeGraph` and
  `Tensor`, which call into the library for every decision.
- `tests/` — tests of the library's public API.
