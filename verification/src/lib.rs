//! Directive Memory: the chunking, classification, search-planning,
//! write-back and rendering rules of a markdown knowledge base.

pub mod text;
pub mod source_type;
pub mod chunker;
pub mod error;
pub mod search;
pub mod writeback;
pub mod config;
pub mod indexer;
pub mod api;
pub mod stats;
pub mod mcp;
