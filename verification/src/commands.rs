//! The slash commands of the extension.

pub mod i18n;
pub mod i18n_keys;
pub mod i18n_sync;
pub mod shared;
