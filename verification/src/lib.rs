//! Extraction of TODO-like annotation comments and their rendering as
//! Markdown, JSON-ready and TOON-ready documents.

pub mod text;
pub mod model;
pub mod common;
pub mod format;
pub mod config;
pub mod create_config;
pub mod search;
pub mod function;
pub mod paths;
pub mod create_markdown;
