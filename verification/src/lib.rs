//! Verified core of an MCP gateway: configuration, the backend pool's
//! routing table, tool listings, health and error classification.
pub mod text;
pub mod name_map;
pub mod config;
pub mod error;
pub mod pool;
pub mod routes;
