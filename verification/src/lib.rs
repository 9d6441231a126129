//! Verified core of a GGUF inference engine.
//!
//! The container format, the tokenizers, the quantized block layouts, the
//! transformer's wiring and the sampling decisions, each with the contract it
//! is proved against. Floating-point kernels and I/O live outside, and talk to
//! this library in integers: an `f32` is its bit pattern.

pub mod draws;
pub mod error;
pub mod float;
pub mod format;
pub mod generate;
pub mod gguf;
pub mod le;
pub mod lmstudio;
pub mod map;
pub mod model;
pub mod names;
pub mod order;
pub mod plan;
pub mod quant;
pub mod report;
pub mod rounding;
pub mod sample;
pub mod settings;
pub mod synth;
pub mod table;
pub mod text;
pub mod tokenizer;
pub mod value;
pub mod wiring;

pub use gguf::{GgmlType, Gguf, TensorInfo, Value};
pub use map::Mmap;
pub use tokenizer::Tokenizer;
