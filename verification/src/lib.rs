//! Verified core of the Infomaniak mail exporter: naming of exported files,
//! resumable export state, index rows and the decisions of the export run.

pub mod text;
pub mod naming;
pub mod state;
pub mod runner;
pub mod mail;
pub mod index;
pub mod progress;
pub mod cli;
