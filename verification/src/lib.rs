//! Core of a persistent local code-search engine: a language-aware chunker
//! that splits source files into indexable units, a fingerprint store that
//! drives incremental reindexing, and the scoring and snippet rules of the
//! query path.

pub mod chunk;
pub mod code_chunker;
pub mod config;
pub mod file_scanner;
pub mod languages;
pub mod metadata;
pub mod pipeline;
pub mod reranker;
pub mod search_engine;
pub mod search_index;
pub mod syntax_tree;
pub mod text;
pub mod tokenizer;
