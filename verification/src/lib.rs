//! Host resource spike monitor: a verified spike-detection state machine
//! over periodic utilization samples, a JSON-lines codec for the durable
//! event log, and the replay filter that reads the log back.

pub mod analyzer;
pub mod config;
pub mod laws;
pub mod metrics;
pub mod numfmt;
pub mod parse;
pub mod record;
pub mod replay;
