//! Bookkeeping around the ggml runtime: GGUF metadata, weight tensors and
//! the token layouts of the SAME encoder and decoder.
pub mod gguf;
pub mod layout;
pub mod weights;
