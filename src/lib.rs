//! Authoring of desktop autostart entries: parsing and content-preserving
//! rewriting of Desktop Entry files, the delayed-start wrapper, effective
//! state, and the choice of launchable applications.
pub mod text;
pub mod decimal;
pub mod delay;
pub mod entry;
pub mod codec;
pub mod writer;
pub mod model;
pub mod discovery;
pub mod config;
pub mod operations;
