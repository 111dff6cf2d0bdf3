//! Lazy iterators over PHP arrays with the adapters and consumers of Rust's
//! `Iterator`, each with a contract over a sequence model of its elements.
pub mod value;
pub mod order;
pub mod model;
pub mod source;
pub mod seq_facts;
pub mod pipe;
pub mod consume;
pub mod kind;
pub mod iter;
pub mod error;
pub mod laws;
pub mod calls;
