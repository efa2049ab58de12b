//! Core of a desktop file browser: human-readable size labels, the
//! directory-size walker, the shared path-to-size cache and its persisted form.

pub mod size_label;
pub mod walker;
pub mod codec;
pub mod cache;
pub mod visibility;
