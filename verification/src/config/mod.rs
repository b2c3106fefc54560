//! Settings and session rules.

pub mod session;
pub mod settings;
