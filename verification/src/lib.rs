//! A grammar-guided decoding core: composable acceptor graphs, parallel
//! walkers that explore transitions through them, and batch-advance logic
//! that reconciles a tokenizer's vocabulary with grammar boundaries.

pub mod acceptor;
pub mod engine;
pub mod laws;
pub mod machine;
pub mod text;
pub mod trie;
pub mod walker;
