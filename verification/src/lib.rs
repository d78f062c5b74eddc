//! Verified core of the i18n key translator: locating translation files,
//! navigating translation JSON, and rendering slash-command output.

pub mod commands;
pub mod config;
pub mod extension;
pub mod json;
pub mod output;
pub mod text;
pub mod translation;
