//! Verified core of a causal language-model inference service: a byte-piece
//! tokenizer, the integer bookkeeping of a batched transformer pass, and a
//! registry of exclusively held chat sessions.

pub mod cache;
pub mod decoding;
pub mod embed;
pub mod forward;
pub mod lru_map;
pub mod manager;
pub mod mask;
pub mod piece;
pub mod registry;
pub mod rows;
pub mod sample;
pub mod schemas;
pub mod service;
pub mod session;
pub mod splice;
pub mod transformer;
pub mod trie;
pub mod vocab_text;
pub mod vocab_txt;
