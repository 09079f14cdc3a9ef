# zenith

The verified core of the Zenith engine's asset pipeline and render-graph
planner, written in Verus.

- `src/` is the library. Its functions are verified against their
  contracts: asset addresses and their normalization, the texture model and
  codec, cache containers and manifests, slot states and revisions, the
  decisions a load takes (cycles, outputs, dependencies, stamps, importer
  selection, refreshes, and the order in which a load finishes, reloads and
  publishes or rolls back), importer checks (image formats, mip counts, block
  padding and compression, glTF documents, labels, URIs, texture and scene plans, triangle lists,
  scene layouts), the first asset pipeline's registry and baked files,
  streaming state for the renderer, startup and frame-capture protocols, and
  the render graph's pass planning. The exceptions are a few small trusted
  wrappers, marked `#[verifier::external_body]`, whose contracts are
  believed: calls into `bincode`, `blake3`, `zstd`, `ispc-texcomp`, `gltf`
  (the document's structure) and `image` (decoding image files), and
  the std calls `String::from_utf8`, `String::push` and the text of an
  `io::Error`.
- `tests/` exercises the library from outside.
- `app/` is ordinary Rust around the library: command-line parsing and
  logging, files on disk, the on-disk cache, the asset server's threads and
  slot table, and the floating-point work of the importers.
