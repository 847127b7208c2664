//! A namespaced key/value store of short text values, and the projections of
//! its entries into `.env` text and shell `export` lines.

pub mod text;
pub mod entry;
pub mod names;
pub mod rows;
pub mod storage;
pub mod env_gen;
pub mod skate;
pub mod persist;
