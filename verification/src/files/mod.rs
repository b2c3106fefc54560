//! Files: line endings, encodings, paths.

pub mod encoding;
pub mod line_endings;
pub mod manager;
