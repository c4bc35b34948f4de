# burn_e5q

The integer side of an int8 E5 text embedding pipeline: matrix products,
graph rewrites, code generation, attention tiling, tokenization and batching,
each function with a contract that Verus proves.

## Layout

- `src/gemm/` – 8-bit matrix products with 32-bit accumulation: the reference
  model, the tiled kernel, the packed VNNI and AMX kernels, zero-point
  correction, the packed-weight cache and the choice between them.
- `src/ir.rs`, `src/node/`, `src/simplify/`, `src/codegen/` – the graph and its
  mathematical model, the node processors, the rewrites that fold an expanded
  GELU, layer normalization or affine dequantization into one node, and the
  text of the generated calls.
- `src/attention/` – which attention path runs, how heads and keys are split,
  what each query sees, and the exact int8 scores.
- `src/embed/` – trimming, tokenization, bucketing and padding of a batch of
  texts, the way each vector gets back to its text, and what a serialized model
  has to be for every text to be encoded.
- `src/cpu_gemm.rs`, `src/elementwise.rs`, `src/jit.rs` – tile sizes, the
  integer choices behind the float sweeps, and the order of the compiler calls,
  step by step.
- `src/bench.rs`, `src/procfs.rs` – arguments and inputs of the measuring
  programs, and the fields they read from `/proc`.
- `app/` – the programs: files, threads, model sessions, float arithmetic.
- `tests/` – concrete values for everything above.

## What is proved

A contract says what a function returns for every input it accepts. Properties
that span functions are public proof functions whose names begin with `law_`.
For instance, every product kernel gives the same matrix as the reference model
(`gemm`), folding keeps the outputs of every node by name and type (`simplify`),
every row ends up in exactly one batch within the token budget, and every text
gets its own vector back (`embed`). Some laws ask for a condition, which is
their `requires`: a second folding of GELUs changes nothing in a graph that is
`well_made`, that is, whose output names are unique, whose Muls have two inputs
and one output, and whose Muls read no scalar that an operator of the expansion
computes.

## What is trusted

Calls into `bytemuck`, `sentencepiece-rs` and `serde_json` stand behind small
wrappers in `src/gemm/acc.rs` and `src/embed/tokenizer.rs`. Each doc comment
says what is taken on trust. A serialized model or a text on which those calls
would panic or might not return is found by a proved test
(`src/embed/model.rs`) and refused.
