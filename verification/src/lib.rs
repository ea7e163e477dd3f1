pub mod config;
pub mod db;
pub mod hash;
pub mod indexer;
pub mod markdown;
pub mod mcp;
pub mod model;
pub mod paths;
pub mod search;
pub mod service;
pub mod text;
pub mod watch;
