//! An LSIF (Language Server Index Format) indexer library.
//!
//! The library turns the answers of a Language Server Protocol (LSP) server
//! about a source tree into an LSIF graph: a stream of vertices and edges,
//! each carrying a unique identifier, ready to be written out as
//! newline-delimited JSON.
//!
//! The verified core covers the tokenizer that proposes candidate
//! identifiers, the classification of LSP answers into definitions and
//! references, the in-memory cache that deduplicates ranges, the indexer
//! that assembles the graph in a valid topological order, and the framing
//! of LSP messages. Process handling and wire I/O live outside the library.

pub mod protocol;
pub mod emitter;
pub mod uris;
pub mod crawler;
pub mod lsif_data_cache;
pub mod cli;
pub mod indexer;
pub mod lsp;
