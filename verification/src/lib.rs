//! NotePad Pro — the editing core, verified with Verus.
//!
//! The library owns the document model, undo history, list behaviour,
//! find & replace, highlight palette / extraction / statistics, line-ending
//! and encoding handling, settings and session repair, and the editing state
//! of the window (tabs, caret, selection). It knows nothing about
//! windows, files on disk or databases: the `app/` crate does that work and
//! hands plain values in and out.

use vstd::prelude::*;

pub mod config;
pub mod db;
pub mod editor;
pub mod files;
pub mod highlight;
pub mod json;
pub mod state;
pub mod text;
pub mod types;
pub mod ui_model;

pub use config::{session, settings};
pub use editor::{find_replace, line_model, list_engine, undo};
pub use files::{encoding, line_endings, manager};
pub use highlight::{extractor, palette, stats};
pub use types::{api, note};

verus! {

/// Human readable application name shown in the UI and About dialog.
pub const APP_NAME: &'static str = "NotePad Pro";

/// SemVer of this build.
pub const APP_VERSION: &'static str = "1.0.2-slint";

/// Extension used by "Save to NotePad Pro" documents.
pub const APP_FILE_EXTENSION: &'static str = "txt";

} // verus!
