//! Shortcut registration and state persistence for a menubar utility:
//! extensions declare named actions with default key combinations, a cache
//! records which extensions are enabled and which combinations are overridden,
//! and a manager renders the combined state and dispatches key events.

pub mod combination;
pub mod config;
pub mod json;
pub mod cache_manager;
pub mod extension;
pub mod extension_manager;
