//! Context aggregation library: walks of a project tree are filtered,
//! deduplicated by content and assembled into one categorized document,
//! and a small registry maps project names to roots and holds hashed
//! API credentials.

pub mod strings;
pub mod order;
pub mod filter;
pub mod contexter;
pub mod document;
pub mod config;
pub mod utils;
pub mod server;
pub mod server_handlers;
