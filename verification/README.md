# portal

Runs ONNX image models (D-FINE and YOLO detectors, TIMM classifiers) and keeps the
decision logic in a Verus-verified library.

- `src/` (verified): model-family recognition from an ONNX signature and input
  geometry (`commons`), class tables read from JSON (`classes`), ranking by score key,
  candidate masks and class choice (`ranking`), greedy class-aware non-maxima
  suppression and top-k selection with their laws (`detection`), annotation colours
  (`visualize`).
- `app/`: the command line, ONNX Runtime sessions, image decoding and resizing, tensor
  conversion, softmax and box geometry in `f32`, and drawing. It hands the library
  order-preserving integer keys of scores and the outcomes of the float comparisons.
- `tests/`: scenarios for every public function of the library.

`Cargo.toml` names `ort-sys`, ONNX Runtime's own FFI crate, only to hold it at the
version that `ort` 2.0.0-rc.9 was written against; a newer `ort-sys` satisfies `ort`'s
version requirement but does not compile with it.

The annotation font is read at run time from `./assets/DejaVuSans.ttf`, since the crate
holds no binary assets to embed.
