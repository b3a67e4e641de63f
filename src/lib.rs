//! A term-relevance index over a tree of text files: eligibility of files,
//! tokenization, and TF-IDF aggregation, with their contracts.

pub mod counts;
pub mod text;
pub mod index;
pub mod tokenizer;
pub mod tfidf;
pub mod paths;
pub mod client;
pub mod writer;
