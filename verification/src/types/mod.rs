//! Data types shared by every module.

pub mod api;
pub mod line;
pub mod note;
