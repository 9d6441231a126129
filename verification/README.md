# ferrite

The core of a GGUF inference engine, in Rust, verified with Verus.

- `src/` is the library: the GGUF container, the two tokenizers, the quantized
  block layouts, the wiring of a llama decode step, the sampling decisions and
  the lookup of downloaded models. Every function states what it returns, and
  the laws that tie functions together (a written file reads back, a decoded
  text is the encoded one, a fused kernel is the plain one, no operation leaves
  its buffer) are proved next to them.
- `app/` is the program around it: the memory mapping, the floating-point
  kernels, the directory walk, the worker threads and the command line.
- `tests/` runs the library on small files that it builds itself.

The library does no floating-point arithmetic. An `f32` is a bit pattern to it,
a weight is a small integer with the scales it is to be multiplied by, and a dot
product is a list of steps. That keeps "which numbers, in which order" inside
what is proved, and leaves only the multiplications outside.

```text
ferrite list                              models LM Studio has downloaded
ferrite where                             directories being searched
ferrite info <model> -t                   header, hyperparameters, quant mix
ferrite tokenize <model> "some text"      ids and pieces
ferrite run <model> "a prompt" -n 128     generate
```
