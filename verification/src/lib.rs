//! Core of a terminal chat client: a line parser for slash commands, a
//! per-session transcript state machine, and the per-tick reconciliation
//! step that merges streamed response fragments into transcripts while
//! dispatching new requests to an out-of-band worker.

pub mod app;
pub mod config;
pub mod decimal;
