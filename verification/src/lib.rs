//! Streaming encoder/decoder and synchronization engine for the ACMI text
//! telemetry format used by Tacview-compatible flight-analysis clients.
//!
//! The crate models every wire record kind as a value type, renders and
//! parses the line-oriented text form, and drives a per-connection state
//! machine that decides, each tick, what to emit for each tracked object.

pub mod record;
pub mod text;
pub mod codec;
pub mod parser;
pub mod writer;
pub mod sync;
