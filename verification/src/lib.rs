//! The decision logic of the pulsar inference engine: tokenization, expert
//! cache policy, integer quantization kernels and the layout of quantized
//! model files. Everything here is pure; files, floats, the environment and
//! the GPU belong to the application around it.

pub mod bpe;
pub mod byte_map;
pub mod chat;
pub mod cpu_dot;
pub mod gguf;
pub mod gguf_write;
pub mod header;
pub mod hybrid_miss;
pub mod layout;
pub mod options;
pub mod order;
pub mod pretokenize;
pub mod quantize;
pub mod read_back;
pub mod roundtrip;
pub mod stream;
pub mod text;
pub mod tokenizer;
