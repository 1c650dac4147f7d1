//! The retrieval core of a small retrieval-augmented generation pipeline.
//!
//! A text is cut into chunks that stay within a limit of tokens
//! ([`chunker`]); an embedding collaborator turns the chunks into vectors;
//! the vectors are kept as points of a collection of a [`store::VectorStore`];
//! and a query is answered by the texts of the points nearest to it
//! ([`retrieval`]). What each operation returns and changes is stated in its
//! contract and proved; [`laws`] holds what follows for several operations
//! together.
//!
//! Vectors are kept as fixed-point numbers, and similarities are compared
//! exactly ([`score`]).

pub mod chunker;
pub mod collection;
pub mod cover;
pub mod error;
pub mod keyed;
pub mod laws;
pub mod point;
pub mod prompt;
pub mod rank;
pub mod retrieval;
pub mod score;
pub mod search;
pub mod splitter;
pub mod store;
pub mod text;
pub mod tokenizer;
