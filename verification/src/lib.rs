//! Verified core of a viewer and analyzer for the transcript logs of an AI
//! coding assistant.
//!
//! The library models transcript entries, permission settings and the
//! analyses run over them (file access tracking, phrase tracking, summaries),
//! together with the state machine of the interactive viewer. Reading files,
//! decoding JSON into these types and drawing the terminal are left to the
//! program around the library.
pub mod models;
pub mod text;
pub mod analytics;
pub mod sorting;
pub mod settings;
pub mod parser;
pub mod tui;
pub mod detail;
pub mod summary;
pub mod project_finder;
