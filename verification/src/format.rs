//! The output documents.

pub mod json;
pub mod markdown;
pub mod read_back;
pub mod toon;
