//! Language-specific chunkers. Each submodule turns a parse tree of one
//! grammar into chunks for indexing.

pub mod java;
