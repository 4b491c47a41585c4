# canonical_heuristics

A neural heuristic for unification: a transformer scores each goal of a problem against each
premise, and a prover's search reads the scores as it goes. This crate is what surrounds the
network, written in [Verus](https://github.com/verus-lang/verus) and proved against its contracts.

Path embeddings multiply a root vector by one matrix for each step. Each step is an index from 0
to 10 into the trained matrices (Type, LHS and RHS, and right and down for Rule, Param, Let and
Arg). Paths are packed as `[seq, path_len]` integers, padded with 11, which stands for the
identity; `path_len` is the longest path of a batch, so there is no greatest depth.

A search begins at once with uniform weights. The network runs on a background thread, and its
weights are put in force when they come, unless another problem has started by then.

## Layout

- `src/`: the verified library.
  - `ir`, `rows`, `text`: positions and tokens, row-major matrices, text.
  - `encoding`, `tables`, `steps`: paths as steps, packed batches, and products of matrices.
  - `input`, `tensor`, `model`: what the network takes and what becomes of its scores.
  - `schedule`, `search`: which weights are in force, and when a search stops.
  - `weights`, `record`: SafeTensors files, and the encoder's parameters as its layers take them.
  - `cli`, `status`: arguments and memory reports of the programs.
- `tests/`: tests of the library with the outside crates linked.
- `app/`: files, threads, the `burn` and LibTorch backends, and the programs `heuristics-bench`,
  `heuristics-parity` and `heuristics-search`.
  The `onnx` feature takes the code that `burn-onnx` generates from `model.onnx` and
  `onnx/transformer.onnx` into `OUT_DIR/model/`.

Floats are bit patterns in `src/`, or values of a type parameter; all arithmetic on them is in
`app/`.

## What is trusted

`src/tensor.rs` trusts `burn`'s `TensorData::new` to keep the elements and the shape that it is
given. `src/weights.rs` trusts `safetensors` to say what a file holds, and `std`'s `from_utf8` and
`serde_json` where a header is decoded and parsed. Everything else is proved.
