//! Core data model for a resource-usage telemetry viewer.
//!
//! Structured simulation-run log records are parsed into data points
//! ([`record`]), accumulated per run and grouped into named series
//! ([`store`]), displayed through a registry of open plot windows
//! ([`views`]), whose cursor and axis state can be synchronized through a
//! shared link token ([`link`]).  Rendering itself, the window toolkit and
//! file dialogs are outside this crate: a GUI shell feeds records in and
//! draws the point sequences handed back out.

pub mod link;
pub mod record;
pub mod store;
pub mod views;
