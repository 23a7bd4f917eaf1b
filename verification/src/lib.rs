//! The Qwen3 language model on the burn deep learning framework.
//!
//! Qwen3 is a decoder-only transformer with
//!
//! - grouped query attention, which keeps the key-value cache small,
//! - rotary position embeddings with a base of 1,000,000,
//! - RMS normalization of the layers' inputs, and of the queries and keys in attention,
//! - feed-forward layers gated by SiLU.
//!
//! There are two models: [`Qwen3Model`] gives hidden states and text embeddings, and
//! [`Qwen3ForCausalLM`] generates text, greedily or with temperature, top-k and top-p sampling,
//! with or without a key-value cache.
//!
//! | Model | Layers | Hidden | Heads | KV Heads |
//! |-------|--------|--------|-------|----------|
//! | 0.6B  | 28     | 1024   | 16    | 8        |
//! | 1.7B  | 28     | 2048   | 16    | 8        |
//! | 4B    | 36     | 2560   | 32    | 8        |
//! | 8B    | 36     | 4096   | 32    | 8        |
//!
//! What is computed on floats is left to burn and known up to rounding: the contracts say of every
//! element of a result which elements it is computed from, and how. Everything else, from the
//! masks, the cache and the wiring of the layers to the choice of tokens and the loading of
//! weights, is stated and proved exactly.
pub mod attention;
pub mod cache;
pub mod causal_lm;
pub mod chance;
pub mod choice;
pub mod config;
pub mod decoder;
pub mod float;
pub mod incremental;
pub mod joined;
pub mod load;
pub mod mask;
pub mod model;
pub mod nn;
pub mod num;
pub mod ops;
pub mod padding;
pub mod random;
pub mod rope;
pub mod sampling;
pub mod store;
pub mod tensor;
pub mod text;
pub mod wiring;

pub use cache::{KVCache, ModelCache};
pub use causal_lm::Qwen3ForCausalLM;
pub use config::{Qwen3AttentionConfig, Qwen3Config};
pub use model::Qwen3Model;
