//! Verified core of an honest, local-first background-activity observer:
//! typed per-field availability, parsers for the Linux `/proc` text formats,
//! socket and mount inventory, lifecycle-event framing and the decisions
//! of the interactive inspectors.

pub mod field;
pub mod text;
pub mod order;
pub mod procfs;
pub mod activity;
pub mod check;
pub mod events;
pub mod recording;
pub mod tui;
pub mod gui;
pub mod cgroups;
