//! Study-time tracking: a registry of study channels, a session log with
//! at most one open session per user, running totals per user, the
//! classifier that turns presence changes into session events, and the
//! codec that splits a duration into hours, minutes and seconds.

pub mod utils;
pub mod db;
pub mod classifier;
pub mod laws;
