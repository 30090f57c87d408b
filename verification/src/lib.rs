//! Core of a codebase context mapper: symbol models, their JSON encoding,
//! budget parsing and budget-aware pruning, symbol extraction and the
//! decisions of the line-delimited JSON-RPC server.
pub mod models;
pub mod text;
pub mod json;
pub mod ranking;
pub mod budgeter;
pub mod map;
pub mod indexer;
pub mod mcp;
