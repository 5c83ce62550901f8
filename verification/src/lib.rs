//! A personal note archive: hierarchical notes with a trash, full-text
//! search and a versioned history of content changes.

pub mod archive;
pub mod database;
pub mod diff;
pub mod export;
pub mod font;
pub mod forest;
pub mod integrity;
pub mod laws;
pub mod models;
pub mod schema;
pub mod search;
pub mod session;
pub mod tables;
pub mod text;
pub mod utils;
