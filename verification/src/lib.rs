//! Finds and removes stale extension version directories that Chrome leaves
//! behind after updates, under a fail-closed protection model.

pub mod text;
pub mod version;
pub mod json;
pub mod prefs;
pub mod locale;
pub mod icon;
pub mod state;
pub mod env;
pub mod clean;
pub mod order;
pub mod scan;
pub mod inventory;
